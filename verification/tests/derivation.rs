use sniffer::ast::{Atom, Rule, Term};
use sniffer::derivation_tree::DerivationTree;
use sniffer::resolution::Selection;
use sniffer::saturation::{LoadError, Outcome, Sniffer};
use sniffer::Parser;

fn fact(name: &str) -> Rule<String> {
    Rule {
        premises: vec![],
        conclusion: Atom {
            symbol: "att".to_string(),
            parameters: vec![Term::Function { symbol: name.to_string(), parameters: vec![] }],
        },
    }
}

#[test]
fn a_tree_is_built_from_the_root_down() {
    let mut tree = DerivationTree::new(fact("m"));
    assert!(tree.subtrees().is_empty());
    assert!(tree.selection().is_none());
    assert_eq!(tree.count_leaves(), 1);
    let mut left = DerivationTree::new(fact("k"));
    left.set_selection(Selection::Conclusion(fact("k").conclusion));
    tree.add_subtree(left);
    tree.add_subtree(DerivationTree::new(fact("c")));
    assert_eq!(tree.subtrees().len(), 2);
    assert_eq!(tree.subtrees()[0].root(), &fact("k"));
    assert_eq!(
        tree.subtrees()[0].selection(),
        &Some(Selection::Conclusion(fact("k").conclusion))
    );
    assert_eq!(tree.subtrees()[1].root(), &fact("c"));
    assert_eq!(tree.count_leaves(), 2);
    let copy = tree.clone();
    assert_eq!(copy.root(), tree.root());
    assert_eq!(copy.subtrees().len(), 2);
}

const SOURCE: &str = "
# symmetric encryption
att(X) /\\ att(Y) => att(senc(X,Y)).
att(senc(X,Y)) /\\ att(Y) => att(X).
att(k). att(senc(m,k)).
";

#[test]
fn a_text_is_loaded() {
    let sniffer = Sniffer::new(SOURCE).unwrap();
    assert_eq!(sniffer.rules().len(), 4);
    assert_eq!(
        sniffer.rules_to_string(),
        "att(VAR0) /\\ att(VAR1) => att(senc(VAR0, VAR1))\n\
         att(senc(VAR2, VAR3)) /\\ att(VAR3) => att(VAR2)\n\
         att(k)\n\
         att(senc(m, k))"
    );
    assert_eq!(sniffer.iter_rules().len(), 4);
    assert_eq!(Sniffer::new("att(a) att(b).").err(), Some(LoadError::Syntax));
    // a clause that is there already is not put in again
    let sniffer = Sniffer::new("att(k). att(k).").unwrap();
    assert_eq!(sniffer.rules().len(), 1);
}

#[test]
fn the_tree_of_a_derived_fact() {
    let mut sniffer = Sniffer::new(SOURCE).unwrap();
    let query = Parser::parse_query("att(m).").unwrap();
    let tree = sniffer.find(&query, 1000).unwrap();
    assert_eq!(tree.root().to_string(), "att(m)");
    assert!(tree.selection().is_none());
    assert_eq!(tree.subtrees().len(), 2);
    let left = &tree.subtrees()[0];
    assert_eq!(left.root().to_string(), "att(k) => att(m)");
    assert_eq!(
        left.selection().as_ref().map(|s| match s {
            Selection::Premise(a, i) => (a.to_string(), Some(*i)),
            Selection::Conclusion(a) => (a.to_string(), None),
        }),
        Some(("att(k)".to_string(), Some(0)))
    );
    assert_eq!(left.subtrees().len(), 2);
    let right = &tree.subtrees()[1];
    assert_eq!(right.root().to_string(), "att(k)");
    assert!(right.subtrees().is_empty());
    // the same tree is found for the clause by its text
    let again = sniffer.derivation_tree(&Rule { premises: vec![], conclusion: query }).unwrap();
    assert_eq!(again.count_leaves(), tree.count_leaves());
    assert_eq!(tree.count_leaves(), 3);
    // a clause with an unknown name has no tree
    let unknown = Parser::parse_rules("att(zzz).").unwrap();
    assert!(sniffer.derivation_tree(&unknown[0]).is_none());
    // a clause that was loaded is a leaf
    let known = Parser::parse_rules("att(k).").unwrap();
    assert!(sniffer.derivation_tree(&known[0]).unwrap().subtrees().is_empty());
}

#[test]
fn saturation_step_by_step() {
    let mut sniffer = Sniffer::new("att(senc(X,Y)) /\\ att(Y) => att(X). att(k). att(senc(m,k)).").unwrap();
    let att = sniffer.id_server().id_of("att").unwrap();
    let goal = sniffer.rules()[1].clone();
    // the goal is the last clause but one: it comes off the worklist second
    assert_eq!(sniffer.saturate(&goal, att, 1), Outcome::Interrupted);
    assert_eq!(sniffer.saturate(&goal, att, 10), Outcome::Derived);
    let missing = Parser::parse_query("att(zzz).").unwrap();
    assert!(sniffer.find(&missing, 0).is_err());
    let mut work = vec![sniffer.rules()[0].clone()];
    let before = sniffer.rules().len();
    let taken = sniffer.step(&mut work, att);
    assert_eq!(&taken, &sniffer.rules()[0]);
    assert_eq!(sniffer.rules().len(), before);
}
