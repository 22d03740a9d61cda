//! Substitutions in executable form: a list of bindings with distinct
//! variables.
use vstd::prelude::*;
use crate::ast::{atoms_view, lemma_term_view, terms_view, Atom, InnerTerm, Rule, Term};
use crate::identifiers::Identifier;
use crate::mgu::{bind, single};
use crate::substitution::{
    lemma_subst_fun, subst, subst_all, subst_atom, subst_atoms, subst_rule, Subst,
};

verus! {

/// Whether some entry binds `x`.
pub open spec fn has_key(es: Seq<(Identifier, InnerTerm)>, x: Identifier) -> bool {
    exists|i: int| 0 <= i < es.len() && (#[trigger] es[i]).0 == x
}

/// The place of the entry that binds `x`.
pub open spec fn key_index(es: Seq<(Identifier, InnerTerm)>, x: Identifier) -> int {
    choose|i: int| 0 <= i < es.len() && (#[trigger] es[i]).0 == x
}

/// No variable is bound twice.
pub open spec fn distinct_keys(es: Seq<(Identifier, InnerTerm)>) -> bool {
    forall|i: int, j: int| 0 <= i < j < es.len() ==> (#[trigger] es[i]).0 != (#[trigger] es[j]).0
}

/// The substitution that a list of entries stands for.
pub open spec fn entries_map(es: Seq<(Identifier, InnerTerm)>) -> Subst {
    Map::new(|x: Identifier| has_key(es, x), |x: Identifier| es[key_index(es, x)].1@)
}

/// With distinct keys, each entry is what the substitution holds for its key.
pub proof fn lemma_entry(es: Seq<(Identifier, InnerTerm)>, i: int)
    requires
        distinct_keys(es),
        0 <= i < es.len(),
    ensures
        entries_map(es).dom().contains(es[i].0),
        entries_map(es)[es[i].0] == es[i].1@,
{
    let x = es[i].0;
    assert(has_key(es, x));
    let k = key_index(es, x);
    if k < i {
        assert(es[k].0 != es[i].0);
    } else if i < k {
        assert(es[i].0 != es[k].0);
    }
}

/// A substitution: each bound variable with the term that replaces it.
pub struct Bindings {
    entries: Vec<(Identifier, InnerTerm)>,
}

impl View for Bindings {
    type V = Subst;

    closed spec fn view(&self) -> Subst {
        entries_map(self.entries@)
    }
}

impl Bindings {
    #[verifier::type_invariant]
    spec fn distinct(&self) -> bool {
        distinct_keys(self.entries@)
    }

    /// The substitution that binds nothing.
    pub fn new() -> (r: Bindings)
        ensures
            r@ == Map::<Identifier, crate::substitution::MTerm>::empty(),
    {
        let r = Bindings { entries: Vec::new() };
        assert(r@ =~= Map::<Identifier, crate::substitution::MTerm>::empty());
        r
    }

    /// The number of bound variables.
    pub fn len(&self) -> (n: usize)
        ensures
            n == self@.dom().len(),
            self@.dom().finite(),
    {
        proof {
            use_type_invariant(self);
            lemma_entries_len(self.entries@);
        }
        self.entries.len()
    }

    /// The term bound to the variable `x`, if any.
    pub fn lookup(&self, x: Identifier) -> (r: Option<&InnerTerm>)
        ensures
            match r {
                Some(t) => self@.dom().contains(x) && self@[x] == t@,
                None => !self@.dom().contains(x),
            },
    {
        proof {
            use_type_invariant(self);
        }
        let mut i: usize = 0;
        while i < self.entries.len()
            invariant
                i <= self.entries.len(),
                distinct_keys(self.entries@),
                forall|j: int| 0 <= j < i ==> (#[trigger] self.entries[j]).0 != x,
            decreases self.entries.len() - i,
        {
            if self.entries[i].0 == x {
                proof {
                    lemma_entry(self.entries@, i as int);
                }
                return Some(&self.entries[i].1);
            }
            i += 1;
        }
        None
    }

    /// The term bound to the given variable, if it is a bound variable.
    pub fn get(&self, key: &InnerTerm) -> (r: Option<&InnerTerm>)
        ensures
            match r {
                Some(t) => key is Variable && self@.dom().contains(key->Variable_symbol) && self@[key->Variable_symbol] == t@,
                None => !(key is Variable && self@.dom().contains(key->Variable_symbol)),
            },
    {
        match key {
            Term::Variable { symbol } => self.lookup(*symbol),
            Term::Function { .. } => None,
        }
    }

    /// The substitution that binds `x` to `f` and nothing else.
    pub fn singleton(x: Identifier, f: InnerTerm) -> (r: Bindings)
        ensures
            r@ == single(x, f@),
    {
        let mut entries: Vec<(Identifier, InnerTerm)> = Vec::new();
        entries.push((x, f));
        let r = Bindings { entries };
        proof {
            lemma_entry(r.entries@, 0);
            assert(r@ =~= single(x, f@));
        }
        r
    }

    /// This substitution followed by the binding of the new variable `x` to `f`.
    pub(crate) fn extended(&self, x: Identifier, f: InnerTerm) -> (r: Bindings)
        requires
            !self@.dom().contains(x),
        ensures
            r@ == bind(self@, x, f@),
    {
        proof {
            use_type_invariant(self);
        }
        let one = Bindings::singleton(x, f.clone());
        let mut entries: Vec<(Identifier, InnerTerm)> = Vec::new();
        let mut i: usize = 0;
        while i < self.entries.len()
            invariant
                i <= self.entries.len(),
                entries.len() == i,
                one@ == single(x, f@),
                forall|j: int|
                    0 <= j < i ==> (#[trigger] entries[j]).0 == self.entries[j].0 && entries[j].1@
                        == subst(self.entries[j].1@, one@),
            decreases self.entries.len() - i,
        {
            let value = self.entries[i].1.apply(&one);
            entries.push((self.entries[i].0, value));
            i += 1;
        }
        entries.push((x, f));
        proof {
            let old_es = self.entries@;
            let es = entries@;
            assert forall|i: int, j: int| 0 <= i < j < es.len() implies (#[trigger] es[i]).0 != (
            #[trigger] es[j]).0 by {
                if j < old_es.len() {
                    assert(old_es[i].0 != old_es[j].0);
                } else {
                    assert(has_key(old_es, old_es[i].0));
                }
            }
            let target = bind(entries_map(old_es), x, f@);
            assert forall|y: Identifier| entries_map(es).dom().contains(y) <==> target.dom().contains(
                y,
            ) by {
                if has_key(es, y) {
                    let k = key_index(es, y);
                    if k < old_es.len() {
                        assert(old_es[k].0 == y);
                        assert(has_key(old_es, y));
                    }
                }
                if has_key(old_es, y) {
                    let k = key_index(old_es, y);
                    assert(es[k].0 == y);
                }
                if y == x {
                    assert(es[es.len() - 1].0 == x);
                }
            }
            assert forall|y: Identifier| entries_map(es).dom().contains(y) implies entries_map(es)[y]
                == target[y] by {
                let k = key_index(es, y);
                lemma_entry(es, k);
                if k < old_es.len() {
                    lemma_entry(old_es, k);
                }
            }
            assert(entries_map(es) =~= target);
        }
        Bindings { entries }
    }
}

/// With distinct keys there are as many bound variables as entries.
pub proof fn lemma_entries_len(es: Seq<(Identifier, InnerTerm)>)
    requires
        distinct_keys(es),
    ensures
        entries_map(es).dom().finite(),
        entries_map(es).dom().len() == es.len(),
    decreases es.len(),
{
    if es.len() == 0 {
        assert(entries_map(es).dom() =~= Set::<Identifier>::empty());
    } else {
        let front = es.drop_last();
        assert forall|i: int, j: int| 0 <= i < j < front.len() implies (#[trigger] front[i]).0 != (
        #[trigger] front[j]).0 by {
            assert(front[i] == es[i] && front[j] == es[j]);
        }
        lemma_entries_len(front);
        let x = es.last().0;
        if has_key(front, x) {
            let k = key_index(front, x);
            assert(front[k] == es[k]);
            assert(es[k].0 != es[es.len() - 1].0);
        }
        assert forall|y: Identifier| entries_map(es).dom().contains(y) <==> entries_map(front).dom().insert(
            x,
        ).contains(y) by {
            if has_key(es, y) {
                let k = key_index(es, y);
                if k < front.len() {
                    assert(front[k].0 == y);
                }
            }
            if has_key(front, y) {
                let k = key_index(front, y);
                assert(es[k].0 == y);
            }
            if y == x {
                assert(es[es.len() - 1].0 == x);
            }
        }
        assert(entries_map(es).dom() =~= entries_map(front).dom().insert(x));
    }
}

impl Term<Identifier> {
    /// The term with every bound variable replaced by the term bound to it.
    #[verifier::loop_isolation(false)]
    pub fn apply(&self, bindings: &Bindings) -> (r: Term<Identifier>)
        ensures
            r@ == subst(self@, bindings@),
        decreases self,
    {
        proof {
            lemma_term_view(*self);
        }
        match self {
            Term::Variable { symbol } => match bindings.lookup(*symbol) {
                Some(t) => t.clone(),
                None => self.clone(),
            },
            Term::Function { symbol, parameters } => {
                let mut images: Vec<Term<Identifier>> = Vec::new();
                let mut i: usize = 0;
                while i < parameters.len()
                    invariant
                        i <= parameters.len(),
                        images.len() == i,
                        forall|j: int|
                            0 <= j < i ==> (#[trigger] images[j])@ == subst(parameters[j]@, bindings@),
                    decreases parameters.len() - i,
                {
                    images.push(parameters[i].apply(bindings));
                    i += 1;
                }
                let r = Term::Function { symbol: *symbol, parameters: images };
                proof {
                    lemma_term_view(r);
                    lemma_subst_fun(*symbol, self@->Fun_1, bindings@);
                    assert(r@->Fun_1 =~= subst(self@, bindings@)->Fun_1);
                }
                r
            },
        }
    }
}

/// The terms of a list, each with the bindings applied.
pub fn apply_terms(ts: &Vec<Term<Identifier>>, bindings: &Bindings) -> (r: Vec<Term<Identifier>>)
    ensures
        terms_view(r@) == subst_all(terms_view(ts@), bindings@),
{
    let mut images: Vec<Term<Identifier>> = Vec::new();
    let mut i: usize = 0;
    while i < ts.len()
        invariant
            i <= ts.len(),
            images.len() == i,
            forall|j: int| 0 <= j < i ==> (#[trigger] images[j])@ == subst(ts[j]@, bindings@),
        decreases ts.len() - i,
    {
        images.push(ts[i].apply(bindings));
        i += 1;
    }
    assert(terms_view(images@) =~= subst_all(terms_view(ts@), bindings@));
    images
}

impl Atom<Identifier> {
    /// The atom with the bindings applied to its arguments.
    pub fn apply(&self, bindings: &Bindings) -> (r: Atom<Identifier>)
        ensures
            r@ == subst_atom(self@, bindings@),
    {
        Atom { symbol: self.symbol, parameters: apply_terms(&self.parameters, bindings) }
    }
}

/// The atoms of a list, each with the bindings applied.
pub fn apply_atoms(atoms: &Vec<Atom<Identifier>>, bindings: &Bindings) -> (r: Vec<Atom<Identifier>>)
    ensures
        atoms_view(r@) == subst_atoms(atoms_view(atoms@), bindings@),
{
    let mut images: Vec<Atom<Identifier>> = Vec::new();
    let mut i: usize = 0;
    while i < atoms.len()
        invariant
            i <= atoms.len(),
            images.len() == i,
            forall|j: int| 0 <= j < i ==> (#[trigger] images[j])@ == subst_atom(atoms[j]@, bindings@),
        decreases atoms.len() - i,
    {
        images.push(atoms[i].apply(bindings));
        i += 1;
    }
    assert(atoms_view(images@) =~= subst_atoms(atoms_view(atoms@), bindings@));
    images
}

impl Rule<Identifier> {
    /// The clause with the bindings applied to every atom.
    pub fn apply(&self, bindings: &Bindings) -> (r: Rule<Identifier>)
        ensures
            r@ == subst_rule(self@, bindings@),
    {
        Rule {
            conclusion: self.conclusion.apply(bindings),
            premises: apply_atoms(&self.premises, bindings),
        }
    }
}

} // verus!
