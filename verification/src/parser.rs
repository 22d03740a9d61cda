//! The grammar of the input language, and the parser that reads clauses
//! and queries from text.
use vstd::prelude::*;
use crate::ast::{
    atoms_view, lemma_term_view, terms_view, Atom, AtomModel, Rule, RuleModel, Term, TermModel,
};
use crate::ast::{SAtom, SRule, STerm};
use crate::lexer::{lex, lexemes_view, tokenize, Lexeme, LexemeModel};

verus! {

/// The lexemes of a text that is read.
pub type Tokens = Seq<LexemeModel>;

/// Whether the lexeme at the place `i` is `l`.
pub open spec fn at(ts: Tokens, i: int, l: LexemeModel) -> bool {
    0 <= i < ts.len() && ts[i] == l
}

/// A term that starts at the place `i`, with the place after it: a
/// variable, a numeral, which stands for a constant, or a constant that
/// may be applied to terms in parentheses.
pub open spec fn p_term(ts: Tokens, i: int) -> Option<(STerm, int)>
    decreases ts.len() - i, 0nat,
{
    if !(0 <= i < ts.len()) {
        None
    } else {
        match ts[i] {
            LexemeModel::Variable(x) => Some((TermModel::Var(x), i + 1)),
            LexemeModel::Integer(d) => Some((TermModel::Fun(d, Seq::empty()), i + 1)),
            LexemeModel::Constant(f) => if at(ts, i + 1, LexemeModel::OpeningParentheses) {
                match p_terms(ts, i + 2) {
                    Some((args, j)) => if at(ts, j, LexemeModel::ClosingParentheses) {
                        Some((TermModel::Fun(f, args), j + 1))
                    } else {
                        None
                    },
                    None => None,
                }
            } else {
                Some((TermModel::Fun(f, Seq::empty()), i + 1))
            },
            _ => None,
        }
    }
}

/// One or more terms with commas between them, from the place `i` on.
pub open spec fn p_terms(ts: Tokens, i: int) -> Option<(Seq<STerm>, int)>
    decreases ts.len() - i, 1nat,
{
    if !(0 <= i < ts.len()) {
        None
    } else {
        match p_term(ts, i) {
            Some((t, j)) => if i < j <= ts.len() {
                p_more_terms(ts, j, seq![t])
            } else {
                None
            },
            None => None,
        }
    }
}

/// The terms `acc` and those that follow at the place `i`, each after a
/// comma.
pub open spec fn p_more_terms(ts: Tokens, i: int, acc: Seq<STerm>) -> Option<(Seq<STerm>, int)>
    decreases ts.len() - i, 2nat,
{
    if at(ts, i, LexemeModel::Comma) {
        match p_term(ts, i + 1) {
            Some((t, j)) => if i < j <= ts.len() {
                p_more_terms(ts, j, acc.push(t))
            } else {
                None
            },
            None => None,
        }
    } else {
        Some((acc, i))
    }
}

/// An atom that starts at the place `i`: a constant and, in parentheses,
/// no term or terms with commas between them.
pub open spec fn p_atom(ts: Tokens, i: int) -> Option<(SAtom, int)> {
    if !(0 <= i < ts.len()) {
        None
    } else {
        match ts[i] {
            LexemeModel::Constant(f) => if at(ts, i + 1, LexemeModel::OpeningParentheses) {
                if at(ts, i + 2, LexemeModel::ClosingParentheses) {
                    Some((AtomModel { symbol: f, parameters: Seq::empty() }, i + 3))
                } else {
                    match p_terms(ts, i + 2) {
                        Some((args, j)) => if at(ts, j, LexemeModel::ClosingParentheses) {
                            Some((AtomModel { symbol: f, parameters: args }, j + 1))
                        } else {
                            None
                        },
                        None => None,
                    }
                }
            } else {
                None
            },
            _ => None,
        }
    }
}

/// The rest of a clause whose first premises are `acc`: more premises,
/// each after `/\`, then `=>`, the conclusion and the full stop.
pub open spec fn p_premises(ts: Tokens, i: int, acc: Seq<SAtom>) -> Option<(SRule, int)>
    decreases ts.len() - i,
{
    if at(ts, i, LexemeModel::And) {
        match p_atom(ts, i + 1) {
            Some((a, j)) => if i < j <= ts.len() {
                p_premises(ts, j, acc.push(a))
            } else {
                None
            },
            None => None,
        }
    } else if at(ts, i, LexemeModel::Implies) {
        match p_atom(ts, i + 1) {
            Some((c, j)) => if at(ts, j, LexemeModel::Stop) {
                Some((RuleModel { premises: acc, conclusion: c }, j + 1))
            } else {
                None
            },
            None => None,
        }
    } else {
        None
    }
}

/// A clause that starts at the place `i`: a fact, that is an atom and the
/// full stop, or premises, `=>`, the conclusion and the full stop.
pub open spec fn p_rule(ts: Tokens, i: int) -> Option<(SRule, int)> {
    match p_atom(ts, i) {
        Some((a, j)) => if at(ts, j, LexemeModel::Stop) {
            Some((RuleModel { premises: Seq::empty(), conclusion: a }, j + 1))
        } else {
            p_premises(ts, j, seq![a])
        },
        None => None,
    }
}

/// The clauses `acc` and those that follow from the place `i` to the end.
pub open spec fn p_rules(ts: Tokens, i: int, acc: Seq<SRule>) -> Option<Seq<SRule>>
    decreases ts.len() - i,
{
    if !(0 <= i < ts.len()) {
        Some(acc)
    } else {
        match p_rule(ts, i) {
            Some((r, j)) => if i < j <= ts.len() {
                p_rules(ts, j, acc.push(r))
            } else {
                None
            },
            None => None,
        }
    }
}

/// The clauses that the lexemes spell, if they spell clauses and nothing
/// else.
pub open spec fn rules_of(ts: Tokens) -> Option<Seq<SRule>> {
    p_rules(ts, 0, Seq::empty())
}

/// The query that the lexemes spell, if they spell an atom and the full
/// stop and nothing else.
pub open spec fn query_of(ts: Tokens) -> Option<SAtom> {
    match p_atom(ts, 0) {
        Some((a, j)) => if at(ts, j, LexemeModel::Stop) && j + 1 == ts.len() {
            Some(a)
        } else {
            None
        },
        None => None,
    }
}

/// The text is not in the language.
#[derive(Debug, PartialEq, Eq, Clone, Copy)]
pub struct ParserError;

/// The parser of the input language.
pub struct Parser;

fn is_open(tokens: &Vec<Lexeme>, i: usize) -> (r: bool)
    ensures
        r == at(lexemes_view(tokens@), i as int, LexemeModel::OpeningParentheses),
{
    i < tokens.len() && match &tokens[i] {
        Lexeme::OpeningParentheses => true,
        _ => false,
    }
}

fn is_close(tokens: &Vec<Lexeme>, i: usize) -> (r: bool)
    ensures
        r == at(lexemes_view(tokens@), i as int, LexemeModel::ClosingParentheses),
{
    i < tokens.len() && match &tokens[i] {
        Lexeme::ClosingParentheses => true,
        _ => false,
    }
}

fn is_comma(tokens: &Vec<Lexeme>, i: usize) -> (r: bool)
    ensures
        r == at(lexemes_view(tokens@), i as int, LexemeModel::Comma),
{
    i < tokens.len() && match &tokens[i] {
        Lexeme::Comma => true,
        _ => false,
    }
}

fn is_and(tokens: &Vec<Lexeme>, i: usize) -> (r: bool)
    ensures
        r == at(lexemes_view(tokens@), i as int, LexemeModel::And),
{
    i < tokens.len() && match &tokens[i] {
        Lexeme::And => true,
        _ => false,
    }
}

fn is_implies(tokens: &Vec<Lexeme>, i: usize) -> (r: bool)
    ensures
        r == at(lexemes_view(tokens@), i as int, LexemeModel::Implies),
{
    i < tokens.len() && match &tokens[i] {
        Lexeme::Implies => true,
        _ => false,
    }
}

fn is_stop(tokens: &Vec<Lexeme>, i: usize) -> (r: bool)
    ensures
        r == at(lexemes_view(tokens@), i as int, LexemeModel::Stop),
{
    i < tokens.len() && match &tokens[i] {
        Lexeme::Stop => true,
        _ => false,
    }
}

impl Parser {
    /// The constant `symbol`, which stands at the place before `i`, alone
    /// or applied to the terms that follow in parentheses.
    fn parse_application(tokens: &Vec<Lexeme>, i: usize, symbol: &String) -> (r: Option<
        (Term<String>, usize),
    >)
        requires
            0 < i <= tokens.len(),
            lexemes_view(tokens@)[i - 1] == LexemeModel::Constant(symbol@),
        ensures
            match r {
                Some((t, j)) => p_term(lexemes_view(tokens@), i - 1) == Some((t@, j as int)) && i
                    <= j <= tokens.len(),
                None => p_term(lexemes_view(tokens@), i - 1) is None,
            },
        decreases tokens.len() - i, 3nat,
    {
        if is_open(tokens, i) {
            if i + 1 >= tokens.len() {
                return None;
            }
            match Self::parse_terms(tokens, i + 1) {
                Some((args, j)) => {
                    if is_close(tokens, j) {
                        let t = Term::Function { symbol: symbol.clone(), parameters: args };
                        proof {
                            lemma_term_view(t);
                        }
                        Some((t, j + 1))
                    } else {
                        None
                    }
                },
                None => None,
            }
        } else {
            let t = Term::Function { symbol: symbol.clone(), parameters: Vec::new() };
            proof {
                lemma_term_view(t);
                assert(t@->Fun_1 =~= Seq::<STerm>::empty());
            }
            Some((t, i))
        }
    }

    /// A term that starts at the place `i`.
    fn parse_term(tokens: &Vec<Lexeme>, i: usize) -> (r: Option<(Term<String>, usize)>)
        ensures
            match r {
                Some((t, j)) => p_term(lexemes_view(tokens@), i as int) == Some((t@, j as int)) && i
                    < j <= tokens.len(),
                None => p_term(lexemes_view(tokens@), i as int) is None,
            },
        decreases tokens.len() - i, 4nat,
    {
        if i >= tokens.len() {
            return None;
        }
        match &tokens[i] {
            Lexeme::Variable(x) => Some((Term::Variable { symbol: x.clone() }, i + 1)),
            Lexeme::Integer(d) => {
                let t = Term::Function { symbol: d.clone(), parameters: Vec::new() };
                proof {
                    lemma_term_view(t);
                    assert(t@->Fun_1 =~= Seq::<STerm>::empty());
                }
                Some((t, i + 1))
            },
            Lexeme::Constant(f) => Self::parse_application(tokens, i + 1, f),
            _ => None,
        }
    }

    /// One or more terms with commas between them, from the place `i` on.
    fn parse_terms(tokens: &Vec<Lexeme>, i: usize) -> (r: Option<(Vec<Term<String>>, usize)>)
        ensures
            match r {
                Some((ts, j)) => p_terms(lexemes_view(tokens@), i as int) == Some(
                    (terms_view(ts@), j as int),
                ) && i < j <= tokens.len(),
                None => p_terms(lexemes_view(tokens@), i as int) is None,
            },
        decreases tokens.len() - i, 5nat,
    {
        if i >= tokens.len() {
            return None;
        }
        let first = Self::parse_term(tokens, i);
        match first {
            None => None,
            Some((t, j)) => {
                let mut acc: Vec<Term<String>> = Vec::new();
                acc.push(t);
                let mut pos = j;
                assert(terms_view(acc@) =~= seq![t@]);
                loop
                    invariant
                        i < pos <= tokens.len(),
                        p_more_terms(lexemes_view(tokens@), pos as int, terms_view(acc@))
                            == p_terms(lexemes_view(tokens@), i as int),
                    decreases tokens.len() - pos,
                {
                    if is_comma(tokens, pos) {
                        match Self::parse_term(tokens, pos + 1) {
                            Some((t, k)) => {
                                let ghost before = terms_view(acc@);
                                acc.push(t);
                                assert(terms_view(acc@) =~= before.push(t@));
                                pos = k;
                            },
                            None => {
                                return None;
                            },
                        }
                    } else {
                        return Some((acc, pos));
                    }
                }
            },
        }
    }

    /// An atom that starts at the place `i`.
    fn parse_atom(tokens: &Vec<Lexeme>, i: usize) -> (r: Option<(Atom<String>, usize)>)
        ensures
            match r {
                Some((a, j)) => p_atom(lexemes_view(tokens@), i as int) == Some((a@, j as int)) && i
                    < j <= tokens.len(),
                None => p_atom(lexemes_view(tokens@), i as int) is None,
            },
    {
        if i >= tokens.len() {
            return None;
        }
        match &tokens[i] {
            Lexeme::Constant(f) => {
                if !is_open(tokens, i + 1) {
                    return None;
                }
                if is_close(tokens, i + 2) {
                    let a = Atom { symbol: f.clone(), parameters: Vec::new() };
                    assert(a@.parameters =~= Seq::<STerm>::empty());
                    return Some((a, i + 3));
                }
                match Self::parse_terms(tokens, i + 2) {
                    Some((args, j)) => {
                        if is_close(tokens, j) {
                            Some((Atom { symbol: f.clone(), parameters: args }, j + 1))
                        } else {
                            None
                        }
                    },
                    None => None,
                }
            },
            _ => None,
        }
    }

    /// A clause that starts at the place `i`.
    fn parse_rule(tokens: &Vec<Lexeme>, i: usize) -> (r: Option<(Rule<String>, usize)>)
        ensures
            match r {
                Some((rule, j)) => p_rule(lexemes_view(tokens@), i as int) == Some(
                    (rule@, j as int),
                ) && i < j <= tokens.len(),
                None => p_rule(lexemes_view(tokens@), i as int) is None,
            },
    {
        let first = Self::parse_atom(tokens, i);
        match first {
            None => None,
            Some((a, j)) => {
                if is_stop(tokens, j) {
                    let rule = Rule { premises: Vec::new(), conclusion: a };
                    assert(rule@.premises =~= Seq::<SAtom>::empty());
                    return Some((rule, j + 1));
                }
                let mut acc: Vec<Atom<String>> = Vec::new();
                acc.push(a);
                let mut pos = j;
                assert(atoms_view(acc@) =~= seq![a@]);
                loop
                    invariant
                        i < pos <= tokens.len(),
                        p_premises(lexemes_view(tokens@), pos as int, atoms_view(acc@)) == p_rule(
                            lexemes_view(tokens@),
                            i as int,
                        ),
                    decreases tokens.len() - pos,
                {
                    if is_and(tokens, pos) {
                        match Self::parse_atom(tokens, pos + 1) {
                            Some((a, k)) => {
                                let ghost before = atoms_view(acc@);
                                acc.push(a);
                                assert(atoms_view(acc@) =~= before.push(a@));
                                pos = k;
                            },
                            None => {
                                return None;
                            },
                        }
                    } else if is_implies(tokens, pos) {
                        match Self::parse_atom(tokens, pos + 1) {
                            Some((c, k)) => {
                                if is_stop(tokens, k) {
                                    return Some((Rule { premises: acc, conclusion: c }, k + 1));
                                } else {
                                    return None;
                                }
                            },
                            None => {
                                return None;
                            },
                        }
                    } else {
                        return None;
                    }
                }
            },
        }
    }

    /// The clauses that the lexemes spell.
    pub fn parse_tokens(tokens: &Vec<Lexeme>) -> (r: Result<Vec<Rule<String>>, ParserError>)
        ensures
            match r {
                Ok(rules) => rules_of(lexemes_view(tokens@)) == Some(
                    crate::ast::rules_surface_view(rules@),
                ),
                Err(_) => rules_of(lexemes_view(tokens@)) is None,
            },
    {
        let mut acc: Vec<Rule<String>> = Vec::new();
        let mut pos: usize = 0;
        assert(crate::ast::rules_surface_view(acc@) =~= Seq::<SRule>::empty());
        while pos < tokens.len()
            invariant
                pos <= tokens.len(),
                p_rules(lexemes_view(tokens@), pos as int, crate::ast::rules_surface_view(acc@))
                    == rules_of(lexemes_view(tokens@)),
            decreases tokens.len() - pos,
        {
            match Self::parse_rule(tokens, pos) {
                Some((rule, k)) => {
                    let ghost before = crate::ast::rules_surface_view(acc@);
                    acc.push(rule);
                    assert(crate::ast::rules_surface_view(acc@) =~= before.push(rule@));
                    pos = k;
                },
                None => {
                    return Err(ParserError);
                },
            }
        }
        Ok(acc)
    }

    /// The clauses that the text spells, if it spells clauses and nothing
    /// else.
    pub fn parse_rules(input: &str) -> (r: Result<Vec<Rule<String>>, ParserError>)
        ensures
            match r {
                Ok(rules) => rules_of(lex(input@)) == Some(crate::ast::rules_surface_view(rules@)),
                Err(_) => rules_of(lex(input@)) is None,
            },
    {
        let tokens = tokenize(input);
        Self::parse_tokens(&tokens)
    }

    /// The query that the text spells, if it spells an atom and the full
    /// stop and nothing else.
    pub fn parse_query(input: &str) -> (r: Result<Atom<String>, ParserError>)
        ensures
            match r {
                Ok(a) => query_of(lex(input@)) == Some(a@),
                Err(_) => query_of(lex(input@)) is None,
            },
    {
        let tokens = tokenize(input);
        match Self::parse_atom(&tokens, 0) {
            Some((a, j)) => {
                if is_stop(&tokens, j) && j + 1 == tokens.len() {
                    Ok(a)
                } else {
                    Err(ParserError)
                }
            },
            None => Err(ParserError),
        }
    }
}

} // verus!
