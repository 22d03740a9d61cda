//! The lexemes of the input language, and the lexer that reads them from
//! text.
use vstd::prelude::*;
use vstd::string::StringExecFns;
use vstd::string::StrSliceExecFns;

verus! {

/// The model of a lexeme.
pub enum LexemeModel {
    Implies,
    OpeningParentheses,
    ClosingParentheses,
    Comma,
    And,
    Stop,
    Variable(Seq<char>),
    Constant(Seq<char>),
    Integer(Seq<char>),
    UnrecognizedLexeme,
}

/// A lexeme of the input language.
#[derive(Eq, PartialEq, Debug)]
pub enum Lexeme {
    /// `=>`
    Implies,
    /// `(`
    OpeningParentheses,
    /// `)`
    ClosingParentheses,
    /// `,`
    Comma,
    /// `/\`
    And,
    /// `.`
    Stop,
    /// A name that starts with a capital letter.
    Variable(String),
    /// A name that starts with a small letter.
    Constant(String),
    /// A numeral: digits and underscores.
    Integer(String),
    /// A character that starts no lexeme.
    UnrecognizedLexeme,
}

impl View for Lexeme {
    type V = LexemeModel;

    open spec fn view(&self) -> LexemeModel {
        match self {
            Lexeme::Implies => LexemeModel::Implies,
            Lexeme::OpeningParentheses => LexemeModel::OpeningParentheses,
            Lexeme::ClosingParentheses => LexemeModel::ClosingParentheses,
            Lexeme::Comma => LexemeModel::Comma,
            Lexeme::And => LexemeModel::And,
            Lexeme::Stop => LexemeModel::Stop,
            Lexeme::Variable(s) => LexemeModel::Variable(s@),
            Lexeme::Constant(s) => LexemeModel::Constant(s@),
            Lexeme::Integer(s) => LexemeModel::Integer(s@),
            Lexeme::UnrecognizedLexeme => LexemeModel::UnrecognizedLexeme,
        }
    }
}

/// The models of a sequence of lexemes.
pub open spec fn lexemes_view(ls: Seq<Lexeme>) -> Seq<LexemeModel> {
    Seq::new(ls.len(), |i: int| ls[i]@)
}

/// Blank, tab, line feed or form feed.
pub open spec fn is_space(c: char) -> bool {
    c == ' ' || c == '\t' || c == '\n' || c == '\x0c'
}

/// A capital letter.
pub open spec fn is_upper(c: char) -> bool {
    'A' <= c <= 'Z'
}

/// A small letter.
pub open spec fn is_lower(c: char) -> bool {
    'a' <= c <= 'z'
}

/// A digit.
pub open spec fn is_digit(c: char) -> bool {
    '0' <= c <= '9'
}

/// A character of a name after its first: a letter, a digit, an
/// underscore or an apostrophe.
pub open spec fn is_name_char(c: char) -> bool {
    is_upper(c) || is_lower(c) || is_digit(c) || c == '_' || c == '\''
}

/// A character of a numeral: a digit or an underscore.
pub open spec fn is_numeral_char(c: char) -> bool {
    is_digit(c) || c == '_'
}

/// The end of the longest run of name characters that starts at `i`.
pub open spec fn name_end(s: Seq<char>, i: int) -> int
    decreases s.len() - i,
{
    if 0 <= i < s.len() && is_name_char(s[i]) {
        name_end(s, i + 1)
    } else {
        i
    }
}

/// The end of the longest run of numeral characters that starts at `i`.
pub open spec fn numeral_end(s: Seq<char>, i: int) -> int
    decreases s.len() - i,
{
    if 0 <= i < s.len() && is_numeral_char(s[i]) {
        numeral_end(s, i + 1)
    } else {
        i
    }
}

/// The place after the line that holds `i`: after the next line feed, or
/// the end of the text.
pub open spec fn line_end(s: Seq<char>, i: int) -> int
    decreases s.len() - i,
{
    if 0 <= i < s.len() {
        if s[i] == '\n' {
            i + 1
        } else {
            line_end(s, i + 1)
        }
    } else {
        i
    }
}

/// The lexemes of the text from the place `i` on. Spaces are skipped, and
/// so is a comment: `#` and the rest of its line. A name or a numeral is
/// as long as it can be. A character that starts no lexeme is an
/// unrecognized lexeme by itself.
pub open spec fn lex_from(s: Seq<char>, i: int) -> Seq<LexemeModel>
    decreases s.len() - i,
{
    if !(0 <= i < s.len()) {
        Seq::empty()
    } else {
        let c = s[i];
        if is_space(c) {
            lex_from(s, i + 1)
        } else if c == '#' {
            if i < line_end(s, i + 1) <= s.len() {
                lex_from(s, line_end(s, i + 1))
            } else {
                Seq::empty()
            }
        } else if c == '(' {
            seq![LexemeModel::OpeningParentheses] + lex_from(s, i + 1)
        } else if c == ')' {
            seq![LexemeModel::ClosingParentheses] + lex_from(s, i + 1)
        } else if c == ',' {
            seq![LexemeModel::Comma] + lex_from(s, i + 1)
        } else if c == '.' {
            seq![LexemeModel::Stop] + lex_from(s, i + 1)
        } else if c == '=' && i + 1 < s.len() && s[i + 1] == '>' {
            seq![LexemeModel::Implies] + lex_from(s, i + 2)
        } else if c == '/' && i + 1 < s.len() && s[i + 1] == '\\' {
            seq![LexemeModel::And] + lex_from(s, i + 2)
        } else if is_upper(c) {
            if i < name_end(s, i + 1) <= s.len() {
                seq![LexemeModel::Variable(s.subrange(i, name_end(s, i + 1)))] + lex_from(
                    s,
                    name_end(s, i + 1),
                )
            } else {
                Seq::empty()
            }
        } else if is_lower(c) {
            if i < name_end(s, i + 1) <= s.len() {
                seq![LexemeModel::Constant(s.subrange(i, name_end(s, i + 1)))] + lex_from(
                    s,
                    name_end(s, i + 1),
                )
            } else {
                Seq::empty()
            }
        } else if is_numeral_char(c) {
            if i < numeral_end(s, i + 1) <= s.len() {
                seq![LexemeModel::Integer(s.subrange(i, numeral_end(s, i + 1)))] + lex_from(
                    s,
                    numeral_end(s, i + 1),
                )
            } else {
                Seq::empty()
            }
        } else {
            seq![LexemeModel::UnrecognizedLexeme] + lex_from(s, i + 1)
        }
    }
}

/// The lexemes of a text.
pub open spec fn lex(s: Seq<char>) -> Seq<LexemeModel> {
    lex_from(s, 0)
}

/// A run of name characters ends at or after its start, within the text.
pub proof fn lemma_name_end(s: Seq<char>, i: int)
    requires
        0 <= i <= s.len(),
    ensures
        i <= name_end(s, i) <= s.len(),
    decreases s.len() - i,
{
    if i < s.len() && is_name_char(s[i]) {
        lemma_name_end(s, i + 1);
    }
}

/// A run of numeral characters ends at or after its start, within the text.
pub proof fn lemma_numeral_end(s: Seq<char>, i: int)
    requires
        0 <= i <= s.len(),
    ensures
        i <= numeral_end(s, i) <= s.len(),
    decreases s.len() - i,
{
    if i < s.len() && is_numeral_char(s[i]) {
        lemma_numeral_end(s, i + 1);
    }
}

/// A line ends at or after any of its places, within the text.
pub proof fn lemma_line_end(s: Seq<char>, i: int)
    requires
        0 <= i <= s.len(),
    ensures
        i <= line_end(s, i) <= s.len(),
    decreases s.len() - i,
{
    if i < s.len() && s[i] != '\n' {
        lemma_line_end(s, i + 1);
    }
}

fn space(c: char) -> (r: bool)
    ensures
        r == is_space(c),
{
    c == ' ' || c == '\t' || c == '\n' || c == '\x0c'
}

fn upper(c: char) -> (r: bool)
    ensures
        r == is_upper(c),
{
    'A' <= c && c <= 'Z'
}

fn lower(c: char) -> (r: bool)
    ensures
        r == is_lower(c),
{
    'a' <= c && c <= 'z'
}

fn numeral_char(c: char) -> (r: bool)
    ensures
        r == is_numeral_char(c),
{
    ('0' <= c && c <= '9') || c == '_'
}

fn name_char(c: char) -> (r: bool)
    ensures
        r == is_name_char(c),
{
    upper(c) || lower(c) || ('0' <= c && c <= '9') || c == '_' || c == '\''
}

/// The end of the longest run of name characters that starts at `start`.
fn scan_name(source: &str, start: usize, n: usize) -> (end: usize)
    requires
        n == source@.len(),
        start <= n,
    ensures
        end == name_end(source@, start as int),
        start <= end <= n,
{
    let mut i = start;
    while i < n
        invariant
            start <= i <= n,
            n == source@.len(),
            name_end(source@, i as int) == name_end(source@, start as int),
        decreases n - i,
    {
        if !name_char(source.get_char(i)) {
            return i;
        }
        i += 1;
    }
    i
}

/// The end of the longest run of numeral characters that starts at `start`.
fn scan_numeral(source: &str, start: usize, n: usize) -> (end: usize)
    requires
        n == source@.len(),
        start <= n,
    ensures
        end == numeral_end(source@, start as int),
        start <= end <= n,
{
    let mut i = start;
    while i < n
        invariant
            start <= i <= n,
            n == source@.len(),
            numeral_end(source@, i as int) == numeral_end(source@, start as int),
        decreases n - i,
    {
        if !numeral_char(source.get_char(i)) {
            return i;
        }
        i += 1;
    }
    i
}

/// The place after the line that holds `start`.
fn scan_line(source: &str, start: usize, n: usize) -> (end: usize)
    requires
        n == source@.len(),
        start <= n,
    ensures
        end == line_end(source@, start as int),
        start <= end <= n,
{
    let mut i = start;
    while i < n
        invariant
            start <= i <= n,
            n == source@.len(),
            line_end(source@, i as int) == line_end(source@, start as int),
        decreases n - i,
    {
        if source.get_char(i) == '\n' {
            return i + 1;
        }
        i += 1;
    }
    i
}

/// The lexemes of a text.
pub fn tokenize(source: &str) -> (r: Vec<Lexeme>)
    ensures
        lexemes_view(r@) == lex(source@),
{
    let n = source.unicode_len();
    let mut out: Vec<Lexeme> = Vec::new();
    let mut i: usize = 0;
    assert(lexemes_view(out@) =~= Seq::<LexemeModel>::empty());
    while i < n
        invariant
            i <= n,
            n == source@.len(),
            lexemes_view(out@) + lex_from(source@, i as int) == lex(source@),
        decreases n - i,
    {
        let c = source.get_char(i);
        let ghost before = lexemes_view(out@);
        let ghost rest = lex_from(source@, i as int);
        let next: usize;
        if space(c) {
            next = i + 1;
        } else if c == '#' {
            next = scan_line(source, i + 1, n);
        } else if c == '(' {
            out.push(Lexeme::OpeningParentheses);
            next = i + 1;
        } else if c == ')' {
            out.push(Lexeme::ClosingParentheses);
            next = i + 1;
        } else if c == ',' {
            out.push(Lexeme::Comma);
            next = i + 1;
        } else if c == '.' {
            out.push(Lexeme::Stop);
            next = i + 1;
        } else if c == '=' && i + 1 < n && source.get_char(i + 1) == '>' {
            out.push(Lexeme::Implies);
            next = i + 2;
        } else if c == '/' && i + 1 < n && source.get_char(i + 1) == '\\' {
            out.push(Lexeme::And);
            next = i + 2;
        } else if upper(c) {
            let end = scan_name(source, i + 1, n);
            out.push(Lexeme::Variable(String::from_str(source.substring_char(i, end))));
            next = end;
        } else if lower(c) {
            let end = scan_name(source, i + 1, n);
            out.push(Lexeme::Constant(String::from_str(source.substring_char(i, end))));
            next = end;
        } else if numeral_char(c) {
            let end = scan_numeral(source, i + 1, n);
            out.push(Lexeme::Integer(String::from_str(source.substring_char(i, end))));
            next = end;
        } else {
            out.push(Lexeme::UnrecognizedLexeme);
            next = i + 1;
        }
        proof {
            let after = lexemes_view(out@);
            if out.len() == before.len() {
                assert(after =~= before);
                assert(rest == lex_from(source@, next as int));
            } else {
                assert(after =~= before.push(out[out.len() - 1]@));
                assert(rest =~= seq![out[out.len() - 1]@] + lex_from(source@, next as int));
                assert(after + lex_from(source@, next as int) =~= before + rest);
            }
        }
        i = next;
    }
    assert(lexemes_view(out@) + lex_from(source@, i as int) =~= lexemes_view(out@));
    out
}

} // verus!
