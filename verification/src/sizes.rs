//! The sizes of terms, atoms and clauses.
use vstd::prelude::*;
use crate::ast::{
    atoms_view, lemma_term_view, terms_view, Atom, AtomModel, Rule, RuleModel, Term, TermModel,
};
use crate::substitution::{size, sizes};

verus! {

/// The size of an atom: one more than that of its arguments.
pub open spec fn atom_size<S>(a: AtomModel<S>) -> nat {
    1 + sizes(a.parameters)
}

/// The size of a sequence of atoms.
pub open spec fn atoms_size<S>(atoms: Seq<AtomModel<S>>) -> nat
    decreases atoms.len(),
{
    if atoms.len() == 0 {
        0
    } else {
        atoms_size(atoms.drop_last()) + atom_size(atoms.last())
    }
}

/// The size of a clause.
pub open spec fn rule_size<S>(r: RuleModel<S>) -> nat {
    atom_size(r.conclusion) + atoms_size(r.premises)
}

/// The sizes of the first `i + 1` terms are those of the first `i` and of
/// the next, and no more than those of all.
pub proof fn lemma_sizes_step<S>(ts: Seq<TermModel<S>>, i: int)
    requires
        0 <= i < ts.len(),
    ensures
        sizes(ts.subrange(0, i + 1)) == sizes(ts.subrange(0, i)) + size(ts[i]),
        sizes(ts.subrange(0, i + 1)) <= sizes(ts),
    decreases ts.len() - i,
{
    assert(ts.subrange(0, i + 1).drop_last() =~= ts.subrange(0, i));
    if i + 1 < ts.len() {
        lemma_sizes_step(ts, i + 1);
    } else {
        assert(ts.subrange(0, i + 1) =~= ts);
    }
}

/// The sizes of the first `i + 1` atoms are those of the first `i` and of
/// the next, and no more than those of all.
pub proof fn lemma_atoms_size_step<S>(atoms: Seq<AtomModel<S>>, i: int)
    requires
        0 <= i < atoms.len(),
    ensures
        atoms_size(atoms.subrange(0, i + 1)) == atoms_size(atoms.subrange(0, i)) + atom_size(
            atoms[i],
        ),
        atoms_size(atoms.subrange(0, i + 1)) <= atoms_size(atoms),
    decreases atoms.len() - i,
{
    assert(atoms.subrange(0, i + 1).drop_last() =~= atoms.subrange(0, i));
    if i + 1 < atoms.len() {
        lemma_atoms_size_step(atoms, i + 1);
    } else {
        assert(atoms.subrange(0, i + 1) =~= atoms);
    }
}

/// The sizes of the terms of a list together, or `None` if that number
/// does not fit.
pub fn terms_checked_size<T: View>(ts: &Vec<Term<T>>) -> (r: Option<usize>)
    ensures
        match r {
            Some(n) => n == sizes(terms_view(ts@)),
            None => sizes(terms_view(ts@)) > usize::MAX,
        },
    decreases ts,
{
    let ghost all = terms_view(ts@);
    let mut total: usize = 0;
    let mut i: usize = 0;
    assert(all.subrange(0, 0) =~= Seq::<TermModel<T::V>>::empty());
    while i < ts.len()
        invariant
            i <= ts.len(),
            all == terms_view(ts@),
            total == sizes(all.subrange(0, i as int)),
        decreases ts.len() - i,
    {
        proof {
            lemma_sizes_step(all, i as int);
            assert(all[i as int] == ts[i as int]@);
        }
        let one = match ts[i].checked_size() {
            Some(n) => n,
            None => {
                return None;
            },
        };
        total = match total.checked_add(one) {
            Some(n) => n,
            None => {
                return None;
            },
        };
        i += 1;
    }
    assert(all.subrange(0, i as int) =~= all);
    Some(total)
}

impl<T: View> Term<T> {
    /// The number of nodes of this term, or `None` if it does not fit.
    pub fn checked_size(&self) -> (r: Option<usize>)
        ensures
            match r {
                Some(n) => n == size(self@),
                None => size(self@) > usize::MAX,
            },
        decreases self,
    {
        proof {
            lemma_term_view(*self);
        }
        match self {
            Term::Variable { .. } => Some(1),
            Term::Function { parameters, .. } => match terms_checked_size(parameters) {
                Some(n) => n.checked_add(1),
                None => None,
            },
        }
    }
}

impl<T: View> Atom<T> {
    /// The size of this atom, or `None` if it does not fit.
    pub fn checked_size(&self) -> (r: Option<usize>)
        ensures
            match r {
                Some(n) => n == atom_size(self@),
                None => atom_size(self@) > usize::MAX,
            },
    {
        match terms_checked_size(&self.parameters) {
            Some(n) => n.checked_add(1),
            None => None,
        }
    }
}

impl<T: View> Rule<T> {
    /// The size of this clause, or `None` if it does not fit.
    pub fn checked_size(&self) -> (r: Option<usize>)
        ensures
            match r {
                Some(n) => n == rule_size(self@),
                None => rule_size(self@) > usize::MAX,
            },
    {
        let ghost all = atoms_view(self.premises@);
        let mut total: usize = match self.conclusion.checked_size() {
            Some(n) => n,
            None => {
                return None;
            },
        };
        let mut i: usize = 0;
        assert(all.subrange(0, 0) =~= Seq::<AtomModel<T::V>>::empty());
        while i < self.premises.len()
            invariant
                i <= self.premises.len(),
                all == atoms_view(self.premises@),
                total == atom_size(self.conclusion@) + atoms_size(all.subrange(0, i as int)),
            decreases self.premises.len() - i,
        {
            proof {
                lemma_atoms_size_step(all, i as int);
                assert(all[i as int] == self.premises[i as int]@);
            }
            let one = match self.premises[i].checked_size() {
                Some(n) => n,
                None => {
                    return None;
                },
            };
            total = match total.checked_add(one) {
                Some(n) => n,
                None => {
                    return None;
                },
            };
            i += 1;
        }
        assert(all.subrange(0, i as int) =~= all);
        Some(total)
    }
}

} // verus!
