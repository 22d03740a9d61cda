use rustc_hash::FxHashMap;
use sniffer::ast::{Atom, Rule, Term};
use sniffer::identifiers::{name_of_variable, Identifier, IdentifierServer};
use sniffer::freshen::Renaming;

fn v(name: &str) -> Term<String> {
    Term::Variable { symbol: name.to_string() }
}

fn f(name: &str, parameters: Vec<Term<String>>) -> Term<String> {
    Term::Function { symbol: name.to_string(), parameters }
}

fn var(i: usize) -> Term<Identifier> {
    Term::Variable { symbol: Identifier::Variable(i) }
}

fn fun(i: usize, parameters: Vec<Term<Identifier>>) -> Term<Identifier> {
    Term::Function { symbol: Identifier::Function(i), parameters }
}

#[test]
fn functions_are_interned_once() {
    let mut server = IdentifierServer::default();
    let att = server.register_function("att");
    let pair = server.register_function("pair");
    assert_eq!(att, Identifier::Function(0));
    assert_eq!(pair, Identifier::Function(1));
    assert_eq!(server.register_function("att"), att);
    assert_eq!(server.id_of("pair"), Some(pair));
    assert_eq!(server.id_of("senc"), None);
    assert_eq!(server.name_of(&att), Some("att".to_string()));
    assert_eq!(server.name_of(&Identifier::Function(2)), None);
}

#[test]
fn variables_are_always_new() {
    let mut server = IdentifierServer::default();
    assert_eq!(server.register_variable(), Identifier::Variable(0));
    assert_eq!(server.register_variable(), Identifier::Variable(1));
    assert_eq!(server.variables(), 2);
    assert_eq!(server.name_of(&Identifier::Variable(1)), Some("VAR1".to_string()));
    assert_eq!(server.name_of(&Identifier::Variable(120)), Some("VAR120".to_string()));
    assert_eq!(server.id_of("VAR1"), Some(Identifier::Variable(1)));
    assert_eq!(server.id_of("VAR2"), None);
}

#[test]
fn variable_names_are_decimal() {
    assert_eq!(name_of_variable(0), "VAR0");
    assert_eq!(name_of_variable(9), "VAR9");
    assert_eq!(name_of_variable(10), "VAR10");
    assert_eq!(name_of_variable(4096), "VAR4096");
}

#[test]
fn a_term_is_interned_with_its_scope() {
    let mut server = IdentifierServer::default();
    let mut scope = FxHashMap::default();
    let t = f("pair", vec![v("X"), f("g", vec![v("Y"), v("X")])]);
    let inner = t.to_inner(&mut server, &mut scope);
    assert_eq!(inner, fun(0, vec![var(0), fun(1, vec![var(1), var(0)])]));
    assert_eq!(scope.get("X"), Some(&Identifier::Variable(0)));
    assert_eq!(scope.get("Y"), Some(&Identifier::Variable(1)));
    // the same scope gives the same variables, and the same function symbols
    assert_eq!(v("Y").to_inner(&mut server, &mut scope), var(1));
    assert_eq!(f("g", vec![]).to_inner(&mut server, &mut scope), fun(1, vec![]));
    assert_eq!(inner.to_string(&server), Some(f("pair", vec![v("VAR0"), f("g", vec![v("VAR1"), v("VAR0")])])));
    assert_eq!(fun(5, vec![]).to_string(&server), None);
}

#[test]
fn each_rule_gets_variables_of_its_own() {
    let mut server = IdentifierServer::default();
    let rule = Rule {
        premises: vec![Atom { symbol: "att".to_string(), parameters: vec![v("X")] }],
        conclusion: Atom { symbol: "att".to_string(), parameters: vec![f("h", vec![v("X"), v("Y")])] },
    };
    let first = rule.to_inner(&mut server);
    let second = rule.to_inner(&mut server);
    assert_eq!(first.conclusion.parameters[0], fun(1, vec![var(0), var(1)]));
    assert_eq!(first.premises[0].parameters[0], var(0));
    assert_eq!(second.conclusion.parameters[0], fun(1, vec![var(2), var(3)]));
    assert_eq!(second.premises[0].parameters[0], var(2));
    let named = second.to_string(&server).unwrap();
    assert_eq!(named.to_string(), "att(VAR2) => att(h(VAR2, VAR3))");
    assert_eq!(named.to_known(&server), Some(second));
    assert_eq!(rule.to_known(&server), None);
}

#[test]
fn make_fresh_renames_variables_alike() {
    let mut server = IdentifierServer::default();
    for _ in 0..5 {
        server.register_variable();
    }
    let mut table = Renaming::new();
    let t = fun(0, vec![var(1), fun(1, vec![var(0), var(1)])]);
    let fresh = t.make_fresh(&mut server, &mut table);
    assert_eq!(fresh, fun(0, vec![var(5), fun(1, vec![var(6), var(5)])]));
    assert_eq!(table.get(Identifier::Variable(1)), Some(Identifier::Variable(5)));
    assert_eq!(table.get(Identifier::Variable(2)), None);
    let rule = Rule {
        premises: vec![Atom { symbol: Identifier::Function(0), parameters: vec![var(6)] }],
        conclusion: Atom { symbol: Identifier::Function(0), parameters: vec![var(9), var(6)] },
    };
    let renamed = rule.make_fresh(&mut server);
    assert_eq!(renamed.conclusion.parameters, vec![var(7), var(8)]);
    assert_eq!(renamed.premises[0].parameters, vec![var(8)]);
    assert_eq!(server.variables(), 9);
}

#[test]
fn sizes_count_nodes() {
    let t = f("pair", vec![v("X"), f("g", vec![v("Y"), v("X")])]);
    assert_eq!(t.checked_size(), Some(5));
    let a = Atom { symbol: "att".to_string(), parameters: vec![t] };
    assert_eq!(a.checked_size(), Some(6));
    let rule = Rule { premises: vec![a.clone(), a.clone()], conclusion: a };
    assert_eq!(rule.checked_size(), Some(18));
}
