use sniffer::ast::{Atom, Rule, Term};
use sniffer::identifiers::Identifier;
use sniffer::resolution::{keep, select, Selection};
use sniffer::unify::UnificationGraph;

fn var(i: usize) -> Term<Identifier> {
    Term::Variable { symbol: Identifier::Variable(i) }
}

fn fun(i: usize, parameters: Vec<Term<Identifier>>) -> Term<Identifier> {
    Term::Function { symbol: Identifier::Function(i), parameters }
}

const ATT: Identifier = Identifier::Function(0);

fn att(t: Term<Identifier>) -> Atom<Identifier> {
    Atom { symbol: ATT, parameters: vec![t] }
}

fn other(t: Term<Identifier>) -> Atom<Identifier> {
    Atom { symbol: Identifier::Function(9), parameters: vec![t] }
}

#[test]
fn selection_takes_the_first_premise_that_says_something() {
    let rule = Rule {
        premises: vec![att(var(0)), other(fun(1, vec![])), att(fun(2, vec![var(0)])), att(fun(3, vec![]))],
        conclusion: att(var(0)),
    };
    assert_eq!(select(&rule, ATT), Selection::Premise(att(fun(2, vec![var(0)])), 2));
    let rule = Rule { premises: vec![att(var(0)), other(fun(1, vec![]))], conclusion: att(var(1)) };
    assert_eq!(select(&rule, ATT), Selection::Conclusion(att(var(1))));
    // an atom of the query's symbol with two arguments says something
    let two = Atom { symbol: ATT, parameters: vec![var(0), var(1)] };
    let rule = Rule { premises: vec![two.clone()], conclusion: att(var(1)) };
    assert_eq!(select(&rule, ATT), Selection::Premise(two, 0));
}

#[test]
fn keep_drops_what_says_nothing() {
    let c = att(fun(1, vec![var(0), var(1)]));
    assert!(keep(&att(var(0)), &c, ATT));
    assert!(!keep(&att(var(2)), &c, ATT));
    assert!(keep(&att(fun(2, vec![var(2)])), &c, ATT));
    assert!(keep(&other(var(2)), &c, ATT));
}

#[test]
fn resolution_on_premise_and_conclusion() {
    // att(f1(X0, X1)) /\ att(X1) => att(X0)   with   => att(f1(c2, c3))
    let r1 = Rule {
        premises: vec![att(fun(1, vec![var(0), var(1)])), att(var(1))],
        conclusion: att(var(0)),
    };
    let r2 = Rule { premises: vec![], conclusion: att(fun(1, vec![fun(2, vec![]), fun(3, vec![])])) };
    let expected = Rule { premises: vec![att(fun(3, vec![]))], conclusion: att(fun(2, vec![])) };
    assert_eq!(r1.resolve(&r2, ATT), Some(expected.clone()));
    // the order of the two clauses does not matter
    assert_eq!(r2.resolve(&r1, ATT), Some(expected));
    // two conclusions, or two premises, do not resolve
    assert_eq!(r2.resolve(&r2, ATT), None);
    assert_eq!(r1.resolve(&r1, ATT), None);
    // atoms that do not unify do not resolve
    let r3 = Rule { premises: vec![], conclusion: att(fun(4, vec![])) };
    assert_eq!(r1.resolve(&r3, ATT), None);
}

#[test]
fn resolution_filters_the_premises() {
    // att(f1(X0)) /\ att(X5) => att(X0)  with  att(X2) /\ att(X3) => att(f1(X2))
    let r1 = Rule { premises: vec![att(fun(1, vec![var(0)])), att(var(5))], conclusion: att(var(0)) };
    let r2 = Rule { premises: vec![att(var(2)), att(var(3))], conclusion: att(fun(1, vec![var(2)])) };
    let resolvent = r1.resolve(&r2, ATT).unwrap();
    assert_eq!(resolvent, Rule { premises: vec![att(var(2))], conclusion: att(var(2)) });
}

#[test]
fn graph_binds_and_dereferences() {
    let mut graph = UnificationGraph::default();
    assert!(graph.bind(Identifier::Variable(0), fun(1, vec![var(1)])));
    // bound already
    assert!(!graph.bind(Identifier::Variable(0), fun(2, vec![])));
    // would bind a variable to a term that holds it
    assert!(!graph.bind(Identifier::Variable(1), fun(3, vec![var(0)])));
    assert!(graph.bind(Identifier::Variable(1), fun(2, vec![])));
    assert_eq!(graph.deref(&var(0)), fun(1, vec![fun(2, vec![])]));
    graph.union(var(3), var(4));
    graph.union(var(0), var(4));
    assert_eq!(graph.deref(&fun(5, vec![var(3), var(4)])), fun(5, vec![var(4), var(4)]));
    assert!(fun(5, vec![var(0)]).contains(&fun(2, vec![]), &graph));
    assert!(!fun(5, vec![var(0)]).contains(&var(1), &graph));
    let bindings = graph.bindings();
    assert_eq!(bindings.len(), 3);
    assert_eq!(bindings.get(&var(3)), Some(&var(4)));
    assert_eq!(bindings.get(&var(4)), None);
    assert_eq!(bindings.get(&fun(2, vec![])), None);
}

#[test]
fn atoms_and_terms_convert() {
    let a = att(fun(1, vec![var(0)]));
    let t = a.to_term();
    assert_eq!(t, Term::Function { symbol: ATT, parameters: vec![fun(1, vec![var(0)])] });
    assert_eq!(t.to_atom(), Some(a.clone()));
    assert_eq!(var(0).to_atom(), None);
    assert!(a.equals(&a.clone()));
    assert!(!a.equals(&att(var(0))));
    assert!(a.contains_variable(&var(0)));
    assert!(!a.contains_variable(&var(1)));
    assert!(fun(1, vec![var(0)]).contains_variable(&var(0)));
    assert!(a.is_symbol(ATT));
    assert!(!a.is_smth_of_variable());
    assert!(att(var(3)).is_smth_of_variable());
    assert_eq!(*t.symbol(), ATT);
    assert!(var(1).is_variable());
    let u = a.unify(&att(var(5))).unwrap();
    assert_eq!(u.get(&var(5)), Some(&fun(1, vec![var(0)])));
    assert!(a.unify(&other(var(5))).is_none());
}

#[test]
fn dereferencing_with_compression_changes_nothing() {
    let mut graph = UnificationGraph::default();
    graph.union(var(1), var(2));
    graph.union(var(3), var(4));
    graph.union(var(2), var(4));
    assert!(graph.bind(Identifier::Variable(4), fun(1, vec![])));
    for x in 1..6 {
        let plain = graph.deref(&var(x));
        assert_eq!(graph.deref_mut(var(x)), plain);
        assert_eq!(graph.deref(&var(x)), plain);
    }
    assert_eq!(graph.deref_mut(fun(2, vec![var(1)])), fun(2, vec![fun(1, vec![])]));
}
