use sniffer::ast::{Atom, Rule, Term};
use sniffer::derivation_tree::DerivationTree;
use sniffer::saturation::{SaturationFailure, Sniffer};

fn v(name: &str) -> Term<String> {
    Term::Variable { symbol: name.to_string() }
}

fn f(name: &str, parameters: Vec<Term<String>>) -> Term<String> {
    Term::Function { symbol: name.to_string(), parameters }
}

fn c(name: &str) -> Term<String> {
    f(name, vec![])
}

fn att(t: Term<String>) -> Atom<String> {
    Atom { symbol: "att".to_string(), parameters: vec![t] }
}

fn rule(premises: Vec<Atom<String>>, conclusion: Atom<String>) -> Rule<String> {
    Rule { premises, conclusion }
}

fn engine(rules: Vec<Rule<String>>) -> Sniffer {
    let mut sniffer = Sniffer::default();
    for r in rules.iter() {
        assert!(sniffer.insert(r));
    }
    sniffer
}

fn pair_rules() -> Vec<Rule<String>> {
    vec![
        rule(vec![att(v("X")), att(v("Y"))], att(f("pair", vec![v("X"), v("Y")]))),
        rule(vec![att(f("pair", vec![v("X"), v("Y")]))], att(v("X"))),
        rule(vec![att(f("pair", vec![v("X"), v("Y")]))], att(v("Y"))),
        rule(vec![], att(c("a"))),
        rule(vec![], att(c("b"))),
    ]
}

fn senc_rules() -> Vec<Rule<String>> {
    vec![
        rule(vec![att(v("X")), att(v("Y"))], att(f("senc", vec![v("X"), v("Y")]))),
        rule(vec![att(f("senc", vec![v("X"), v("Y")])), att(v("Y"))], att(v("X"))),
    ]
}

fn fact_leaves(tree: &DerivationTree) -> Vec<String> {
    if tree.subtrees().is_empty() {
        if tree.root().premises.is_empty() {
            vec![tree.root().to_string()]
        } else {
            vec![]
        }
    } else {
        tree.subtrees().iter().flat_map(|t| fact_leaves(t)).collect()
    }
}

const STEPS: usize = 10_000;

#[test]
fn pair_decomposition_known_fact() {
    let mut sniffer = engine(pair_rules());
    let tree = sniffer.find(&att(c("a")), STEPS).unwrap();
    assert!(tree.subtrees().is_empty());
    assert_eq!(tree.root().to_string(), "att(a)");
}

#[test]
fn pair_decomposition_unknown_constant() {
    let mut sniffer = engine(pair_rules());
    assert_eq!(sniffer.find(&att(c("c")), STEPS).err(), Some(SaturationFailure::Saturated));
}

#[test]
fn pair_decomposition_constructor_is_not_resolved() {
    // Neither premise of the constructor is selected, so the engine does
    // not build the pair.
    let mut sniffer = engine(pair_rules());
    let query = att(f("pair", vec![c("a"), c("b")]));
    assert_eq!(sniffer.find(&query, STEPS).err(), Some(SaturationFailure::Saturated));
}

#[test]
fn symmetric_encryption() {
    let mut rules = senc_rules();
    rules.push(rule(vec![], att(c("k"))));
    rules.push(rule(vec![], att(f("senc", vec![c("m"), c("k")]))));
    let mut sniffer = engine(rules.clone());
    assert!(sniffer.find(&att(c("m")), STEPS).is_ok());
    let mut sniffer = engine(rules);
    assert_eq!(sniffer.find(&att(c("k2")), STEPS).err(), Some(SaturationFailure::Saturated));
}

#[test]
fn hidden_secret() {
    let mut rules = senc_rules();
    rules.push(rule(vec![], att(c("k"))));
    rules.push(rule(vec![], att(f("senc", vec![c("m"), c("k")]))));
    rules.push(rule(vec![], att(f("senc", vec![c("secret"), c("ksecret")]))));
    let mut sniffer = engine(rules);
    // The key is not known. But the keep filter drops the premise `att(Y)`
    // of `att(Y) /\ att(senc(X, Y)) => att(X)`, the resolvent of the
    // decryption clause with `att(X) => att(X)`, because `Y` is not in the
    // conclusion; what is left decrypts without the key.
    let tree = sniffer.find(&att(c("secret")), STEPS).unwrap();
    assert_eq!(fact_leaves(&tree), vec!["att(senc(secret, ksecret))".to_string()]);
}

#[test]
fn leaked_secret() {
    let mut rules = senc_rules();
    rules.push(rule(vec![], att(c("k"))));
    rules.push(rule(vec![], att(f("senc", vec![c("m"), c("k")]))));
    rules.push(rule(vec![], att(c("kleak"))));
    rules.push(rule(vec![], att(f("senc", vec![c("leak"), c("kleak")]))));
    let mut sniffer = engine(rules);
    let tree = sniffer.find(&att(c("leak")), STEPS).unwrap();
    let mut leaves = fact_leaves(&tree);
    leaves.sort();
    assert_eq!(leaves, vec!["att(kleak)".to_string(), "att(senc(leak, kleak))".to_string()]);
}

#[test]
fn public_key_recovery() {
    let rules = vec![
        rule(vec![att(v("X")), att(v("Y"))], att(f("aenc", vec![v("X"), v("Y")]))),
        rule(
            vec![att(f("aenc", vec![v("X"), f("pub", vec![v("Y")])])), att(v("Y"))],
            att(v("X")),
        ),
        rule(vec![att(v("X"))], att(f("pub", vec![v("X")]))),
        rule(vec![], att(c("sk"))),
        rule(vec![], att(f("aenc", vec![c("msg"), f("pub", vec![c("sk")])]))),
    ];
    let mut sniffer = engine(rules);
    assert!(sniffer.find(&att(c("msg")), STEPS).is_ok());
}

#[test]
fn occurs_check_guards_divergence() {
    let p = |t: Term<String>| Atom { symbol: "p".to_string(), parameters: vec![t] };
    let rules = vec![rule(vec![p(v("X"))], p(f("f", vec![v("X")]))), rule(vec![], p(v("Y")))];
    let mut sniffer = engine(rules);
    assert_eq!(
        sniffer.find(&p(c("a")), STEPS).err(),
        Some(SaturationFailure::Saturated)
    );
}

#[test]
fn step_limit_interrupts() {
    let mut rules = senc_rules();
    rules.push(rule(vec![], att(c("k"))));
    rules.push(rule(vec![], att(f("senc", vec![c("m"), c("k")]))));
    let mut sniffer = engine(rules);
    assert_eq!(sniffer.find(&att(c("m")), 1).err(), Some(SaturationFailure::Interrupted));
}

#[test]
fn clause_set_only_grows() {
    let mut rules = senc_rules();
    rules.push(rule(vec![], att(c("k"))));
    rules.push(rule(vec![], att(f("senc", vec![c("m"), c("k")]))));
    let mut sniffer = engine(rules);
    let before: Vec<_> = sniffer.rules().iter().cloned().collect();
    let _ = sniffer.find(&att(c("m")), STEPS);
    let after = sniffer.rules();
    assert!(before.len() <= after.len());
    for (i, r) in before.iter().enumerate() {
        assert_eq!(*r, after[i]);
    }
    // every clause that came in has its two parents in the set, and they
    // resolve to it
    let query = sniffer.id_server().id_of("att").unwrap();
    for r in after.iter().skip(before.len()) {
        let info = sniffer.derivation_of(r).unwrap();
        assert!(sniffer.contains(&info.rules.0));
        assert!(sniffer.contains(&info.rules.1));
        assert_eq!(info.rules.0.resolve(&info.rules.1, query).as_ref(), Some(r));
    }
}

#[test]
fn same_input_same_result() {
    let build = || {
        let mut rules = senc_rules();
        rules.push(rule(vec![], att(c("k"))));
        rules.push(rule(vec![], att(f("senc", vec![c("m"), c("k")]))));
        let mut sniffer = engine(rules);
        let _ = sniffer.find(&att(c("k2")), STEPS);
        sniffer
    };
    let a = build();
    let b = build();
    assert_eq!(a.rules(), b.rules());
}
