//! A text for every sequence of lexemes, and the proof that the lexer
//! reads the lexemes back from it.
use vstd::prelude::*;
use crate::ast::{SAtom, SRule, STerm, TermModel};
use crate::grammar::{
    atom_tokens, conclusion_tokens, lemma_query_reads_back, lemma_rules_read_back,
    lemma_stands_split, more_atoms, more_tokens, rule_tokens, rules_tokens, stands, term_tokens,
};
use crate::lexer::{
    is_lower, is_name_char, is_numeral_char, is_space, is_upper, lex, lex_from, name_end,
    numeral_end, LexemeModel,
};
use crate::parser::{query_of, rules_of, Tokens};

verus! {

/// A name: not empty, and after its first character only letters, digits,
/// underscores and apostrophes.
pub open spec fn valid_name(x: Seq<char>) -> bool {
    x.len() > 0 && forall|i: int| 1 <= i < x.len() ==> is_name_char(#[trigger] x[i])
}

/// A numeral: not empty, and only digits and underscores.
pub open spec fn valid_numeral(d: Seq<char>) -> bool {
    d.len() > 0 && forall|i: int| 0 <= i < d.len() ==> is_numeral_char(#[trigger] d[i])
}

/// A lexeme that the lexer can give: a variable is a name that starts with
/// a capital letter, a constant one that starts with a small letter.
pub open spec fn valid_lexeme(l: LexemeModel) -> bool {
    match l {
        LexemeModel::Variable(x) => valid_name(x) && is_upper(x[0]),
        LexemeModel::Constant(x) => valid_name(x) && is_lower(x[0]),
        LexemeModel::Integer(d) => valid_numeral(d),
        LexemeModel::UnrecognizedLexeme => false,
        _ => true,
    }
}

/// The text of a lexeme.
pub open spec fn lexeme_text(l: LexemeModel) -> Seq<char> {
    match l {
        LexemeModel::Implies => seq!['=', '>'],
        LexemeModel::OpeningParentheses => seq!['('],
        LexemeModel::ClosingParentheses => seq![')'],
        LexemeModel::Comma => seq![','],
        LexemeModel::And => seq!['/', '\\'],
        LexemeModel::Stop => seq!['.'],
        LexemeModel::Variable(x) => x,
        LexemeModel::Constant(x) => x,
        LexemeModel::Integer(d) => d,
        LexemeModel::UnrecognizedLexeme => seq!['?'],
    }
}

/// A text that spells the lexemes from the place `k` on: the text of each,
/// with a blank after it.
pub open spec fn spelling(ts: Tokens, k: int) -> Seq<char>
    decreases ts.len() - k,
{
    if 0 <= k < ts.len() {
        lexeme_text(ts[k]) + seq![' '] + spelling(ts, k + 1)
    } else {
        Seq::empty()
    }
}

/// Where a text stands, its characters are those of the whole at their
/// places.
pub proof fn lemma_stands_char(s: Seq<char>, i: int, part: Seq<char>, k: int)
    requires
        stands(s, i, part),
        0 <= k < part.len(),
    ensures
        s[i + k] == part[k],
{
    assert(s.subrange(i, i + part.len())[k] == s[i + k]);
}

/// A name that is followed by a blank ends where the blank stands.
pub proof fn lemma_name_run(s: Seq<char>, i: int, x: Seq<char>, j: int)
    requires
        valid_name(x),
        stands(s, i, x + seq![' ']),
        1 <= j <= x.len(),
    ensures
        name_end(s, i + j) == i + x.len(),
    decreases x.len() - j,
{
    lemma_stands_char(s, i, x + seq![' '], j);
    if j < x.len() {
        assert((x + seq![' '])[j] == x[j]);
        lemma_name_run(s, i, x, j + 1);
    } else {
        assert((x + seq![' '])[j] == ' ');
    }
}

/// A numeral that is followed by a blank ends where the blank stands.
pub proof fn lemma_numeral_run(s: Seq<char>, i: int, d: Seq<char>, j: int)
    requires
        valid_numeral(d),
        stands(s, i, d + seq![' ']),
        1 <= j <= d.len(),
    ensures
        numeral_end(s, i + j) == i + d.len(),
    decreases d.len() - j,
{
    lemma_stands_char(s, i, d + seq![' '], j);
    if j < d.len() {
        assert((d + seq![' '])[j] == d[j]);
        lemma_numeral_run(s, i, d, j + 1);
    } else {
        assert((d + seq![' '])[j] == ' ');
    }
}

/// The lexer reads a lexeme back from its text and the blank after it.
pub proof fn lemma_lex_one(s: Seq<char>, i: int, l: LexemeModel)
    requires
        valid_lexeme(l),
        stands(s, i, lexeme_text(l) + seq![' ']),
    ensures
        lex_from(s, i) == seq![l] + lex_from(s, i + lexeme_text(l).len() + 1),
{
    let text = lexeme_text(l);
    let whole = text + seq![' '];
    let n = text.len() as int;
    lemma_stands_char(s, i, whole, 0);
    lemma_stands_char(s, i, whole, n);
    assert(whole[n] == ' ');
    assert(whole[0] == text[0]);
    assert(is_space(s[i + n]));
    assert(lex_from(s, i + n) == lex_from(s, i + n + 1));
    match l {
        LexemeModel::Implies => {
            lemma_stands_char(s, i, whole, 1);
            assert(whole[1] == '>');
        },
        LexemeModel::And => {
            lemma_stands_char(s, i, whole, 1);
            assert(whole[1] == '\\');
        },
        LexemeModel::Variable(x) => {
            lemma_name_run(s, i, x, 1);
            assert(s.subrange(i, i + n) =~= x) by {
                lemma_stands_split(s, i, x, seq![' ']);
            }
        },
        LexemeModel::Constant(x) => {
            lemma_name_run(s, i, x, 1);
            assert(s.subrange(i, i + n) =~= x) by {
                lemma_stands_split(s, i, x, seq![' ']);
            }
        },
        LexemeModel::Integer(d) => {
            lemma_numeral_run(s, i, d, 1);
            assert(is_numeral_char(d[0]));
            assert(s.subrange(i, i + n) =~= d) by {
                lemma_stands_split(s, i, d, seq![' ']);
            }
        },
        _ => {},
    }
}

/// The lexer reads the lexemes back, from the place `k` on, from the text
/// that spells them to the end.
pub proof fn lemma_lex_spelling(ts: Tokens, k: int, s: Seq<char>, i: int)
    requires
        forall|j: int| 0 <= j < ts.len() ==> valid_lexeme(#[trigger] ts[j]),
        0 <= k <= ts.len(),
        stands(s, i, spelling(ts, k)),
        i + spelling(ts, k).len() == s.len(),
    ensures
        lex_from(s, i) == ts.subrange(k, ts.len() as int),
    decreases ts.len() - k,
{
    if k < ts.len() {
        let one = lexeme_text(ts[k]) + seq![' '];
        let rest = spelling(ts, k + 1);
        lemma_stands_split(s, i, one, rest);
        lemma_lex_one(s, i, ts[k]);
        lemma_lex_spelling(ts, k + 1, s, i + one.len());
        assert(seq![ts[k]] + ts.subrange(k + 1, ts.len() as int) =~= ts.subrange(
            k,
            ts.len() as int,
        ));
    } else {
        assert(spelling(ts, k) =~= Seq::<char>::empty());
        assert(ts.subrange(k, ts.len() as int) =~= Seq::<LexemeModel>::empty());
    }
}

/// Every sequence of lexemes that the lexer can give is read back from the
/// text that spells it.
pub proof fn lemma_lexemes_read_back(ts: Tokens)
    requires
        forall|j: int| 0 <= j < ts.len() ==> valid_lexeme(#[trigger] ts[j]),
    ensures
        lex(spelling(ts, 0)) == ts,
{
    let s = spelling(ts, 0);
    assert(s.subrange(0, s.len() as int) =~= s);
    lemma_lex_spelling(ts, 0, s, 0);
    assert(ts.subrange(0, ts.len() as int) =~= ts);
}

/// Every lexeme of the sequence is one that the lexer can give.
pub open spec fn all_valid(ts: Tokens) -> bool {
    forall|j: int| 0 <= j < ts.len() ==> valid_lexeme(#[trigger] ts[j])
}

/// Two sequences of lexemes that the lexer can give make one.
pub proof fn lemma_all_valid_concat(a: Tokens, b: Tokens)
    requires
        all_valid(a),
        all_valid(b),
    ensures
        all_valid(a + b),
{
    assert forall|j: int| 0 <= j < (a + b).len() implies valid_lexeme(#[trigger] (a + b)[j]) by {
        if j < a.len() {
            assert((a + b)[j] == a[j]);
        } else {
            assert((a + b)[j] == b[j - a.len()]);
        }
    }
}

/// The names of the term are names of the language: those of variables
/// start with a capital letter, those of function symbols with a small one.
pub open spec fn well_named(t: STerm) -> bool
    decreases t,
{
    match t {
        TermModel::Var(x) => valid_name(x) && is_upper(x[0]),
        TermModel::Fun(f, args) => valid_name(f) && is_lower(f[0]) && forall|i: int|
            0 <= i < args.len() ==> well_named(#[trigger] args[i]),
    }
}

/// The names of the atom are names of the language.
pub open spec fn well_named_atom(a: SAtom) -> bool {
    valid_name(a.symbol) && is_lower(a.symbol[0]) && forall|i: int|
        0 <= i < a.parameters.len() ==> well_named(#[trigger] a.parameters[i])
}

/// The names of the clause are names of the language.
pub open spec fn well_named_rule(r: SRule) -> bool {
    well_named_atom(r.conclusion) && forall|i: int|
        0 <= i < r.premises.len() ==> well_named_atom(#[trigger] r.premises[i])
}

/// The lexemes that spell a term with names of the language are lexemes
/// that the lexer can give.
pub proof fn lemma_term_tokens_valid(t: STerm)
    requires
        well_named(t),
    ensures
        all_valid(term_tokens(t)),
    decreases t, 0nat,
{
    match t {
        TermModel::Var(x) => {},
        TermModel::Fun(f, args) => {
            if args.len() > 0 {
                let head = seq![LexemeModel::Constant(f), LexemeModel::OpeningParentheses];
                lemma_term_tokens_valid(args[0]);
                lemma_more_tokens_valid(args, 1);
                lemma_all_valid_concat(head, term_tokens(args[0]));
                lemma_all_valid_concat(head + term_tokens(args[0]), more_tokens(args, 1));
                lemma_all_valid_concat(
                    head + term_tokens(args[0]) + more_tokens(args, 1),
                    seq![LexemeModel::ClosingParentheses],
                );
            }
        },
    }
}

/// The lexemes that spell terms with names of the language are lexemes
/// that the lexer can give.
pub proof fn lemma_more_tokens_valid(ts: Seq<STerm>, k: int)
    requires
        forall|i: int| 0 <= i < ts.len() ==> well_named(#[trigger] ts[i]),
        0 <= k,
    ensures
        all_valid(more_tokens(ts, k)),
    decreases ts, ts.len() - k,
{
    if k < ts.len() {
        lemma_term_tokens_valid(ts[k]);
        lemma_more_tokens_valid(ts, k + 1);
        lemma_all_valid_concat(seq![LexemeModel::Comma], term_tokens(ts[k]));
        lemma_all_valid_concat(
            seq![LexemeModel::Comma] + term_tokens(ts[k]),
            more_tokens(ts, k + 1),
        );
    }
}

/// The lexemes that spell an atom with names of the language are lexemes
/// that the lexer can give.
pub proof fn lemma_atom_tokens_valid(a: SAtom)
    requires
        well_named_atom(a),
    ensures
        all_valid(atom_tokens(a)),
{
    if a.parameters.len() > 0 {
        let head = seq![LexemeModel::Constant(a.symbol), LexemeModel::OpeningParentheses];
        lemma_term_tokens_valid(a.parameters[0]);
        lemma_more_tokens_valid(a.parameters, 1);
        lemma_all_valid_concat(head, term_tokens(a.parameters[0]));
        lemma_all_valid_concat(head + term_tokens(a.parameters[0]), more_tokens(a.parameters, 1));
        lemma_all_valid_concat(
            head + term_tokens(a.parameters[0]) + more_tokens(a.parameters, 1),
            seq![LexemeModel::ClosingParentheses],
        );
    }
}

/// The lexemes that spell premises with names of the language are lexemes
/// that the lexer can give.
pub proof fn lemma_more_atoms_valid(ps: Seq<SAtom>, k: int)
    requires
        forall|i: int| 0 <= i < ps.len() ==> well_named_atom(#[trigger] ps[i]),
        0 <= k,
    ensures
        all_valid(more_atoms(ps, k)),
    decreases ps.len() - k,
{
    if k < ps.len() {
        lemma_atom_tokens_valid(ps[k]);
        lemma_more_atoms_valid(ps, k + 1);
        lemma_all_valid_concat(seq![LexemeModel::And], atom_tokens(ps[k]));
        lemma_all_valid_concat(seq![LexemeModel::And] + atom_tokens(ps[k]), more_atoms(ps, k + 1));
    }
}

/// The lexemes that spell a clause with names of the language are lexemes
/// that the lexer can give.
pub proof fn lemma_rule_tokens_valid(r: SRule)
    requires
        well_named_rule(r),
    ensures
        all_valid(rule_tokens(r)),
{
    lemma_atom_tokens_valid(r.conclusion);
    if r.premises.len() == 0 {
        lemma_all_valid_concat(atom_tokens(r.conclusion), seq![LexemeModel::Stop]);
    } else {
        lemma_atom_tokens_valid(r.premises[0]);
        lemma_more_atoms_valid(r.premises, 1);
        lemma_all_valid_concat(seq![LexemeModel::Implies], atom_tokens(r.conclusion));
        lemma_all_valid_concat(
            seq![LexemeModel::Implies] + atom_tokens(r.conclusion),
            seq![LexemeModel::Stop],
        );
        lemma_all_valid_concat(more_atoms(r.premises, 1), conclusion_tokens(r.conclusion));
        lemma_all_valid_concat(
            atom_tokens(r.premises[0]),
            more_atoms(r.premises, 1) + conclusion_tokens(r.conclusion),
        );
    }
}

/// The lexemes that spell clauses with names of the language are lexemes
/// that the lexer can give.
pub proof fn lemma_rules_tokens_valid(rs: Seq<SRule>, k: int)
    requires
        forall|i: int| 0 <= i < rs.len() ==> well_named_rule(#[trigger] rs[i]),
        0 <= k,
    ensures
        all_valid(rules_tokens(rs, k)),
    decreases rs.len() - k,
{
    if k < rs.len() {
        lemma_rule_tokens_valid(rs[k]);
        lemma_rules_tokens_valid(rs, k + 1);
        lemma_all_valid_concat(rule_tokens(rs[k]), rules_tokens(rs, k + 1));
    }
}

/// Every list of clauses with names of the language has a text from which
/// the clauses are read back.
pub proof fn lemma_text_reads_back(rs: Seq<SRule>)
    requires
        forall|i: int| 0 <= i < rs.len() ==> well_named_rule(#[trigger] rs[i]),
    ensures
        rules_of(lex(spelling(rules_tokens(rs, 0), 0))) == Some(rs),
{
    lemma_rules_tokens_valid(rs, 0);
    lemma_lexemes_read_back(rules_tokens(rs, 0));
    lemma_rules_read_back(rs);
}

/// Every atom with names of the language has a text from which it is read
/// back as a query.
pub proof fn lemma_query_text_reads_back(a: SAtom)
    requires
        well_named_atom(a),
    ensures
        query_of(lex(spelling(atom_tokens(a) + seq![LexemeModel::Stop], 0))) == Some(a),
{
    lemma_atom_tokens_valid(a);
    lemma_all_valid_concat(atom_tokens(a), seq![LexemeModel::Stop]);
    lemma_lexemes_read_back(atom_tokens(a) + seq![LexemeModel::Stop]);
    lemma_query_reads_back(a);
}

} // verus!
