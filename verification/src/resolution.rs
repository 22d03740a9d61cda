//! Binary resolution of two clauses on their selected atoms.
use vstd::prelude::*;
use crate::ast::{atoms_view, Atom, AtomModel, InnerAtom, InnerRule, Rule, RuleModel};
use crate::bindings::{apply_atoms, Bindings};
use crate::identifiers::Identifier;
use crate::mgu::mgu_of;
use crate::substitution::{occurs, subst_atom, subst_atoms, MAtom, MRule, Subst};

verus! {

/// The model of a selection: a premise with its place, or the conclusion.
pub enum SelectionModel<S> {
    Premise(AtomModel<S>, nat),
    Conclusion(AtomModel<S>),
}

/// The atom of a clause on which it is resolved.
#[derive(Debug, PartialEq, Eq)]
pub enum Selection<T> {
    Premise(Atom<T>, usize),
    Conclusion(Atom<T>),
}

impl<T: View> View for Selection<T> {
    type V = SelectionModel<T::V>;

    open spec fn view(&self) -> SelectionModel<T::V> {
        match self {
            Selection::Premise(a, i) => SelectionModel::Premise(a@, *i as nat),
            Selection::Conclusion(a) => SelectionModel::Conclusion(a@),
        }
    }
}

impl Clone for Selection<Identifier> {
    fn clone(&self) -> (res: Self)
        ensures
            res@ == self@,
    {
        match self {
            Selection::Premise(a, i) => Selection::Premise(a.clone(), *i),
            Selection::Conclusion(a) => Selection::Conclusion(a.clone()),
        }
    }
}

impl Clone for Selection<String> {
    fn clone(&self) -> (res: Self)
        ensures
            res@ == self@,
    {
        match self {
            Selection::Premise(a, i) => Selection::Premise(a.clone(), *i),
            Selection::Conclusion(a) => Selection::Conclusion(a.clone()),
        }
    }
}

/// An atom that says its symbol of one bare variable, such as `att(X)`.
pub open spec fn of_variable(a: MAtom) -> bool {
    a.parameters.len() == 1 && a.parameters[0] is Var
}

/// A premise on which a clause may be resolved: its head is the query's
/// and it is not of a bare variable.
pub open spec fn selectable(a: MAtom, query: Identifier) -> bool {
    a.symbol == query && !of_variable(a)
}

/// `i` is the place of the first selectable premise.
pub open spec fn first_selectable(ps: Seq<MAtom>, query: Identifier, i: int) -> bool {
    &&& 0 <= i < ps.len()
    &&& selectable(ps[i], query)
    &&& forall|j: int| 0 <= j < i ==> !selectable(#[trigger] ps[j], query)
}

/// The selection of a clause for a query: its first selectable premise, or
/// its conclusion when it has none.
pub open spec fn selection(r: MRule, query: Identifier) -> SelectionModel<Identifier> {
    if exists|i: int| first_selectable(r.premises, query, i) {
        let i = choose|i: int| first_selectable(r.premises, query, i);
        SelectionModel::Premise(r.premises[i], i as nat)
    } else {
        SelectionModel::Conclusion(r.conclusion)
    }
}

/// Whether a premise is worth keeping beside the conclusion `c`: a premise
/// that says the query's symbol of a bare variable is kept only if the
/// variable appears in the conclusion.
pub open spec fn keeps(a: MAtom, c: MAtom, query: Identifier) -> bool {
    if a.symbol == query && of_variable(a) {
        occurs(a.parameters[0]->Var_0, c.term())
    } else {
        true
    }
}

/// The premises that are kept, in their order.
pub open spec fn kept(ps: Seq<MAtom>, c: MAtom, query: Identifier) -> Seq<MAtom>
    decreases ps.len(),
{
    if ps.len() == 0 {
        ps
    } else if keeps(ps.last(), c, query) {
        kept(ps.drop_last(), c, query).push(ps.last())
    } else {
        kept(ps.drop_last(), c, query)
    }
}

/// The clause obtained from `r1`, resolved on its premise `i`, and `r2`,
/// resolved on its conclusion, under the unifier `sig` of the two atoms.
pub open spec fn resolvent(r1: MRule, i: int, r2: MRule, sig: Subst, query: Identifier) -> MRule {
    let conclusion = subst_atom(r1.conclusion, sig);
    RuleModel {
        premises: kept(subst_atoms(r1.premises.remove(i) + r2.premises, sig), conclusion, query),
        conclusion,
    }
}

/// The resolvent of the premise `p`, at place `i` of `r1`, with the
/// conclusion `c` of `r2`, if the two atoms unify.
pub open spec fn resolve_on(r1: MRule, p: MAtom, i: int, r2: MRule, c: MAtom, query: Identifier) -> Option<
    MRule,
> {
    match mgu_of(p.term(), c.term()) {
        Some(sig) => Some(resolvent(r1, i, r2, sig, query)),
        None => None,
    }
}

/// The resolvent of two clauses for a query: one must be selected on a
/// premise and the other on its conclusion, and the two atoms must unify.
pub open spec fn resolve_spec(r1: MRule, r2: MRule, query: Identifier) -> Option<MRule> {
    match (selection(r1, query), selection(r2, query)) {
        (SelectionModel::Premise(p, i), SelectionModel::Conclusion(c)) => resolve_on(
            r1,
            p,
            i as int,
            r2,
            c,
            query,
        ),
        (SelectionModel::Conclusion(c), SelectionModel::Premise(p, i)) => resolve_on(
            r2,
            p,
            i as int,
            r1,
            c,
            query,
        ),
        _ => None,
    }
}

/// The selection of a clause for the query symbol.
pub fn select(rule: &InnerRule, query: Identifier) -> (s: Selection<Identifier>)
    ensures
        s@ == selection(rule@, query),
        s matches Selection::Premise(_, i) ==> i < rule.premises.len(),
{
    let mut i: usize = 0;
    while i < rule.premises.len()
        invariant
            i <= rule.premises.len(),
            forall|j: int| 0 <= j < i ==> !selectable(#[trigger] rule@.premises[j], query),
        decreases rule.premises.len() - i,
    {
        let p = &rule.premises[i];
        proof {
            assert(rule@.premises[i as int] == p@);
            if p.parameters.len() == 1 {
                assert(p@.parameters[0] == p.parameters[0]@);
                crate::ast::lemma_term_view(p.parameters[0]);
            }
        }
        if p.is_symbol(query) && !p.is_smth_of_variable() {
            proof {
                assert(first_selectable(rule@.premises, query, i as int));
                let k = choose|k: int| first_selectable(rule@.premises, query, k);
                assert(k == i) by {
                    if k < i {
                        assert(!selectable(rule@.premises[k], query));
                    } else if i < k {
                        assert(!selectable(rule@.premises[i as int], query));
                    }
                }
            }
            return Selection::Premise(p.clone(), i);
        }
        i += 1;
    }
    proof {
        assert forall|k: int| !first_selectable(rule@.premises, query, k) by {
            if 0 <= k < rule@.premises.len() {
                assert(!selectable(rule@.premises[k], query));
            }
        }
    }
    Selection::Conclusion(rule.conclusion.clone())
}

/// Whether the premise `a` is worth keeping beside the conclusion `c`.
pub fn keep(a: &InnerAtom, c: &InnerAtom, query: Identifier) -> (r: bool)
    ensures
        r == keeps(a@, c@, query),
{
    proof {
        if a.parameters.len() == 1 {
            assert(a@.parameters[0] == a.parameters[0]@);
            crate::ast::lemma_term_view(a.parameters[0]);
        }
    }
    if a.is_symbol(query) && a.is_smth_of_variable() {
        c.contains_variable(&a.parameters[0])
    } else {
        true
    }
}

/// The premises of a list that are worth keeping beside `c`.
pub fn keep_all(ps: Vec<InnerAtom>, c: &InnerAtom, query: Identifier) -> (r: Vec<InnerAtom>)
    ensures
        atoms_view(r@) == kept(atoms_view(ps@), c@, query),
{
    let mut out: Vec<InnerAtom> = Vec::new();
    let mut i: usize = 0;
    let ghost all = atoms_view(ps@);
    assert(all.subrange(0, 0) =~= Seq::<MAtom>::empty());
    while i < ps.len()
        invariant
            i <= ps.len(),
            all == atoms_view(ps@),
            atoms_view(out@) == kept(all.subrange(0, i as int), c@, query),
        decreases ps.len() - i,
    {
        proof {
            let next = all.subrange(0, i as int + 1);
            assert(next.drop_last() =~= all.subrange(0, i as int));
            assert(next.last() == ps[i as int]@);
        }
        if keep(&ps[i], c, query) {
            let ghost before = atoms_view(out@);
            out.push(ps[i].clone());
            assert(atoms_view(out@) =~= before.push(ps[i as int]@));
        }
        i += 1;
    }
    assert(all.subrange(0, i as int) =~= all);
    out
}

impl Rule<Identifier> {
    /// The resolvent of this clause, selected on its premise `i`, with
    /// `other`, selected on its conclusion, under the unifier `sigma`.
    pub fn resolve_with(&self, i: usize, other: &InnerRule, sigma: &Bindings, query: Identifier) -> (r:
        InnerRule)
        requires
            i < self.premises.len(),
        ensures
            r@ == resolvent(self@, i as int, other@, sigma@, query),
    {
        let mut joined: Vec<InnerAtom> = Vec::new();
        let mut k: usize = 0;
        let ghost mine = atoms_view(self.premises@);
        while k < self.premises.len()
            invariant
                k <= self.premises.len(),
                i < self.premises.len(),
                mine == atoms_view(self.premises@),
                k <= i ==> atoms_view(joined@) == mine.subrange(0, k as int),
                k > i ==> atoms_view(joined@) == mine.subrange(0, i as int) + mine.subrange(
                    i as int + 1,
                    k as int,
                ),
            decreases self.premises.len() - k,
        {
            let ghost before = atoms_view(joined@);
            if k != i {
                joined.push(self.premises[k].clone());
                proof {
                    assert(atoms_view(joined@) =~= before.push(mine[k as int]));
                    if k < i {
                        assert(mine.subrange(0, k as int + 1) =~= mine.subrange(0, k as int).push(
                            mine[k as int],
                        ));
                    } else {
                        assert(mine.subrange(i as int + 1, k as int + 1) =~= mine.subrange(
                            i as int + 1,
                            k as int,
                        ).push(mine[k as int]));
                        assert(atoms_view(joined@) =~= mine.subrange(0, i as int) + mine.subrange(
                            i as int + 1,
                            k as int + 1,
                        ));
                    }
                }
            } else {
                proof {
                    assert(mine.subrange(i as int + 1, k as int + 1) =~= Seq::<MAtom>::empty());
                    assert(atoms_view(joined@) =~= mine.subrange(0, i as int) + mine.subrange(
                        i as int + 1,
                        k as int + 1,
                    ));
                }
            }
            k += 1;
        }
        assert(atoms_view(joined@) == mine.remove(i as int));
        let ghost theirs = atoms_view(other.premises@);
        let mut j: usize = 0;
        while j < other.premises.len()
            invariant
                j <= other.premises.len(),
                theirs == atoms_view(other.premises@),
                atoms_view(joined@) == mine.remove(i as int) + theirs.subrange(0, j as int),
            decreases other.premises.len() - j,
        {
            let ghost before = atoms_view(joined@);
            joined.push(other.premises[j].clone());
            proof {
                assert(atoms_view(joined@) =~= before.push(theirs[j as int]));
                assert(theirs.subrange(0, j as int + 1) =~= theirs.subrange(0, j as int).push(
                    theirs[j as int],
                ));
                assert(atoms_view(joined@) =~= mine.remove(i as int) + theirs.subrange(
                    0,
                    j as int + 1,
                ));
            }
            j += 1;
        }
        assert(theirs.subrange(0, j as int) =~= theirs);
        let conclusion = self.conclusion.apply(sigma);
        let images = apply_atoms(&joined, sigma);
        let premises = keep_all(images, &conclusion, query);
        Rule { premises, conclusion }
    }

    /// The resolvent of this clause and `other` for the query symbol: one
    /// of the two must be selected on a premise and the other on its
    /// conclusion, and the two selected atoms must unify.
    pub fn resolve(&self, other: &InnerRule, query: Identifier) -> (r: Option<InnerRule>)
        ensures
            match r {
                Some(rule) => resolve_spec(self@, other@, query) == Some(rule@),
                None => resolve_spec(self@, other@, query) is None,
            },
    {
        match (select(self, query), select(other, query)) {
            (Selection::Premise(p, i), Selection::Conclusion(c)) => match p.unify(&c) {
                Some(sigma) => Some(self.resolve_with(i, other, &sigma, query)),
                None => None,
            },
            (Selection::Conclusion(c), Selection::Premise(p, i)) => match p.unify(&c) {
                Some(sigma) => Some(other.resolve_with(i, self, &sigma, query)),
                None => None,
            },
            _ => None,
        }
    }
}

} // verus!
