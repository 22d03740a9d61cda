use sniffer::ast::{Atom, Rule, Term};
use sniffer::lexer::{tokenize, Lexeme};
use sniffer::parser::{Parser, ParserError};

fn v(name: &str) -> Term<String> {
    Term::Variable { symbol: name.to_string() }
}

fn f(name: &str, parameters: Vec<Term<String>>) -> Term<String> {
    Term::Function { symbol: name.to_string(), parameters }
}

fn atom(name: &str, parameters: Vec<Term<String>>) -> Atom<String> {
    Atom { symbol: name.to_string(), parameters }
}

#[test]
fn lexes_every_kind_of_lexeme() {
    let tokens = tokenize("att(X1, k') /\\ p(12_3) => q().");
    assert_eq!(
        tokens,
        vec![
            Lexeme::Constant("att".to_string()),
            Lexeme::OpeningParentheses,
            Lexeme::Variable("X1".to_string()),
            Lexeme::Comma,
            Lexeme::Constant("k'".to_string()),
            Lexeme::ClosingParentheses,
            Lexeme::And,
            Lexeme::Constant("p".to_string()),
            Lexeme::OpeningParentheses,
            Lexeme::Integer("12_3".to_string()),
            Lexeme::ClosingParentheses,
            Lexeme::Implies,
            Lexeme::Constant("q".to_string()),
            Lexeme::OpeningParentheses,
            Lexeme::ClosingParentheses,
            Lexeme::Stop,
        ]
    );
}

#[test]
fn lexer_skips_spaces_and_comments() {
    let tokens = tokenize("  # a comment ( => \n\t p # until the end");
    assert_eq!(tokens, vec![Lexeme::Constant("p".to_string())]);
    assert_eq!(tokenize(""), vec![]);
}

#[test]
fn lexer_marks_what_it_does_not_know() {
    assert_eq!(
        tokenize("= / é"),
        vec![Lexeme::UnrecognizedLexeme, Lexeme::UnrecognizedLexeme, Lexeme::UnrecognizedLexeme]
    );
}

#[test]
fn parses_a_query() {
    assert_eq!(
        Parser::parse_query("att(pair(a, B))."),
        Ok(atom("att", vec![f("pair", vec![f("a", vec![]), v("B")])]))
    );
    assert_eq!(Parser::parse_query("p()."), Ok(atom("p", vec![])));
}

#[test]
fn rejects_what_is_no_query() {
    assert_eq!(Parser::parse_query("att(a)"), Err(ParserError));
    assert_eq!(Parser::parse_query("att(a). att(b)."), Err(ParserError));
    assert_eq!(Parser::parse_query("X(a)."), Err(ParserError));
    assert_eq!(Parser::parse_query("att(a,)."), Err(ParserError));
    assert_eq!(Parser::parse_query("att(f())."), Err(ParserError));
    assert_eq!(Parser::parse_query("att a."), Err(ParserError));
    assert_eq!(Parser::parse_query(""), Err(ParserError));
}

#[test]
fn parses_rules() {
    let rules = Parser::parse_rules(
        "# pairs\natt(X) /\\ att(Y) => att(pair(X,Y)).\natt(a). att(7).",
    )
    .unwrap();
    assert_eq!(
        rules,
        vec![
            Rule {
                premises: vec![atom("att", vec![v("X")]), atom("att", vec![v("Y")])],
                conclusion: atom("att", vec![f("pair", vec![v("X"), v("Y")])]),
            },
            Rule { premises: vec![], conclusion: atom("att", vec![f("a", vec![])]) },
            Rule { premises: vec![], conclusion: atom("att", vec![f("7", vec![])]) },
        ]
    );
    assert_eq!(Parser::parse_rules(""), Ok(vec![]));
}

#[test]
fn rejects_what_is_no_list_of_rules() {
    assert_eq!(Parser::parse_rules("att(a). att(b)"), Err(ParserError));
    assert_eq!(Parser::parse_rules("=> att(a)."), Err(ParserError));
    assert_eq!(Parser::parse_rules("att(a) /\\ att(b)."), Err(ParserError));
    assert_eq!(Parser::parse_rules("att(a) => ."), Err(ParserError));
    assert_eq!(Parser::parse_rules("att(a). $"), Err(ParserError));
}

#[test]
fn text_of_a_rule_parses_back() {
    let source = "att(senc(X, Y)) /\\ att(Y) => att(X).";
    let rules = Parser::parse_rules(source).unwrap();
    assert_eq!(rules.len(), 1);
    assert_eq!(rules[0].to_string(), "att(senc(X, Y)) /\\ att(Y) => att(X)");
    assert_eq!(rules[0].conclusion.to_string(), "att(X)");
    assert_eq!(rules[0].premises[0].parameters[0].to_string(), "senc(X, Y)");
    assert_eq!(f("c", vec![]).to_string(), "c");
    assert_eq!(atom("p", vec![]).to_string(), "p");
}
