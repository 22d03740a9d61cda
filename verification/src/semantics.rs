//! What clauses mean, and when resolution derives only consequences.
use vstd::prelude::*;
use crate::ast::{AtomModel, RuleModel, TermModel};
use crate::identifiers::Identifier;
use crate::mgu::{lemma_mgu_of_correct, mgu_of, unifies};
use crate::resolution::{
    first_selectable, keeps, kept, resolve_spec, resolvent, selection, SelectionModel,
};
use crate::saturation::{accounted, has_derivation, sniffer_wf, SnifferModel};
use crate::substitution::{
    lemma_subst_agree, lemma_subst_fun, lemma_subst_twice, lookup, occurs, subst, subst_all,
    subst_atom, subst_atoms, MAtom, MRule, MTerm, Subst,
};

verus! {

/// An interpretation: the atoms that are true.
pub type Interpretation = Set<MAtom>;

/// Every atom of the sequence is true under the valuation `th`.
pub open spec fn satisfies_all(i: Interpretation, ps: Seq<MAtom>, th: Subst) -> bool {
    forall|k: int| 0 <= k < ps.len() ==> i.contains(subst_atom(#[trigger] ps[k], th))
}

/// The clause holds: under every valuation that makes its premises true,
/// its conclusion is true.
pub open spec fn holds(i: Interpretation, r: MRule) -> bool {
    forall|th: Subst| #[trigger] satisfies_all(i, r.premises, th) ==> i.contains(
        subst_atom(r.conclusion, th),
    )
}

/// The query symbol is true of some term.
pub open spec fn inhabited(i: Interpretation, query: Identifier) -> bool {
    exists|t: MTerm| i.contains(#[trigger] unary(query, t))
}

/// The atom that says `symbol` of the one term `t`.
pub open spec fn unary(symbol: Identifier, t: MTerm) -> MAtom {
    AtomModel { symbol, parameters: seq![t] }
}

/// The substitution `a` followed by `b`.
pub open spec fn compose(a: Subst, b: Subst) -> Subst {
    Map::new(
        |x: Identifier| a.dom().contains(x) || b.dom().contains(x),
        |x: Identifier| subst(lookup(a, x), b),
    )
}

/// Applying `a` and then `b` is applying `a` followed by `b`.
pub proof fn lemma_compose(t: MTerm, a: Subst, b: Subst)
    ensures
        subst(subst(t, a), b) == subst(t, compose(a, b)),
{
    assert forall|x: Identifier| occurs(x, t) implies subst(lookup(a, x), b) == lookup(
        compose(a, b),
        x,
    ) by {}
    lemma_subst_twice(t, a, b, compose(a, b));
}

/// Applying `a` and then `b` to an atom is applying `a` followed by `b`.
pub proof fn lemma_compose_atom(p: MAtom, a: Subst, b: Subst)
    ensures
        subst_atom(subst_atom(p, a), b) == subst_atom(p, compose(a, b)),
{
    assert forall|k: int| 0 <= k < p.parameters.len() implies subst(subst(p.parameters[k], a), b)
        == subst(p.parameters[k], compose(a, b)) by {
        lemma_compose(p.parameters[k], a, b);
    }
    assert(subst_all(subst_all(p.parameters, a), b) =~= subst_all(p.parameters, compose(a, b)));
}

/// Two substitutions that agree on the variables of an atom make the same
/// of it.
pub proof fn lemma_subst_atom_agree(p: MAtom, a: Subst, b: Subst)
    requires
        forall|x: Identifier| occurs(x, p.term()) ==> lookup(a, x) == lookup(b, x),
    ensures
        subst_atom(p, a) == subst_atom(p, b),
{
    lemma_subst_agree(p.term(), a, b);
    lemma_subst_fun(p.symbol, p.parameters, a);
    lemma_subst_fun(p.symbol, p.parameters, b);
}

/// A unifier of two atoms, seen as terms, makes them the same atom.
pub proof fn lemma_unified_atoms(p: MAtom, c: MAtom, sig: Subst)
    requires
        unifies(sig, p.term(), c.term()),
    ensures
        subst_atom(p, sig) == subst_atom(c, sig),
{
    lemma_subst_fun(p.symbol, p.parameters, sig);
    lemma_subst_fun(c.symbol, c.parameters, sig);
}

/// The clause that resolution gives before any premise is dropped.
pub open spec fn unfiltered(r1: MRule, i: int, r2: MRule, sig: Subst) -> MRule {
    RuleModel {
        premises: subst_atoms(r1.premises.remove(i) + r2.premises, sig),
        conclusion: subst_atom(r1.conclusion, sig),
    }
}

/// Resolution is sound: where two clauses hold, so does the clause that
/// resolution gives from them before any premise is dropped.
pub proof fn lemma_resolution_sound(i: Interpretation, r1: MRule, k: int, r2: MRule, sig: Subst)
    requires
        holds(i, r1),
        holds(i, r2),
        0 <= k < r1.premises.len(),
        unifies(sig, r1.premises[k].term(), r2.conclusion.term()),
    ensures
        holds(i, unfiltered(r1, k, r2, sig)),
{
    let r = unfiltered(r1, k, r2, sig);
    let joined = r1.premises.remove(k) + r2.premises;
    let rest = r1.premises.remove(k);
    assert forall|th: Subst| #[trigger] satisfies_all(i, r.premises, th) implies i.contains(
        subst_atom(r.conclusion, th),
    ) by {
        let both = compose(sig, th);
        assert forall|j: int| 0 <= j < joined.len() implies i.contains(
            subst_atom(#[trigger] joined[j], both),
        ) by {
            assert(r.premises[j] == subst_atom(joined[j], sig));
            assert(i.contains(subst_atom(r.premises[j], th)));
            lemma_compose_atom(joined[j], sig, th);
        }
        assert forall|j: int| 0 <= j < r2.premises.len() implies i.contains(
            subst_atom(#[trigger] r2.premises[j], both),
        ) by {
            assert(joined[rest.len() + j] == r2.premises[j]);
        }
        assert(satisfies_all(i, r2.premises, both));
        assert(i.contains(subst_atom(r2.conclusion, both)));
        lemma_unified_atoms(r1.premises[k], r2.conclusion, sig);
        lemma_compose_atom(r1.premises[k], sig, th);
        lemma_compose_atom(r2.conclusion, sig, th);
        assert(i.contains(subst_atom(r1.premises[k], both)));
        assert forall|j: int| 0 <= j < r1.premises.len() implies i.contains(
            subst_atom(#[trigger] r1.premises[j], both),
        ) by {
            if j < k {
                assert(joined[j] == r1.premises[j]);
            } else if j > k {
                assert(joined[j - 1] == r1.premises[j]);
            }
        }
        assert(satisfies_all(i, r1.premises, both));
        lemma_compose_atom(r1.conclusion, sig, th);
    }
}

/// The variable `x` is that of a premise that is dropped beside `c`.
pub open spec fn dropped_variable(ps: Seq<MAtom>, c: MAtom, query: Identifier, x: Identifier) -> bool {
    exists|k: int|
        0 <= k < ps.len() && !keeps(#[trigger] ps[k], c, query) && ps[k].parameters[0]
            == TermModel::<Identifier>::Var(x)
}

/// Dropping premises does no harm: the variable of a dropped premise is
/// in no premise that is kept.
pub open spec fn harmless(ps: Seq<MAtom>, c: MAtom, query: Identifier) -> bool {
    forall|x: Identifier, j: int|
        dropped_variable(ps, c, query, x) && 0 <= j < ps.len() && keeps(#[trigger] ps[j], c, query)
            ==> !#[trigger] occurs(x, ps[j].term())
}

/// Every premise that is worth keeping is among the kept.
pub proof fn lemma_kept_has(ps: Seq<MAtom>, c: MAtom, query: Identifier, j: int)
    requires
        0 <= j < ps.len(),
        keeps(ps[j], c, query),
    ensures
        exists|m: int| 0 <= m < kept(ps, c, query).len() && #[trigger] kept(ps, c, query)[m] == ps[j],
    decreases ps.len(),
{
    let all = kept(ps, c, query);
    if j == ps.len() - 1 {
        assert(all[all.len() - 1] == ps[j]);
    } else {
        lemma_kept_has(ps.drop_last(), c, query, j);
        let front = kept(ps.drop_last(), c, query);
        let m = choose|m: int| 0 <= m < front.len() && #[trigger] front[m] == ps.drop_last()[j];
        assert(all[m] == ps[j]);
    }
}

/// The valuation `th`, but with `t` for the variable of every dropped
/// premise.
pub open spec fn patched(th: Subst, ps: Seq<MAtom>, c: MAtom, query: Identifier, t: MTerm) -> Subst {
    Map::new(
        |x: Identifier| th.dom().contains(x) || dropped_variable(ps, c, query, x),
        |x: Identifier|
            if dropped_variable(ps, c, query, x) {
                t
            } else {
                th[x]
            },
    )
}

/// Dropping premises is sound where it does no harm and the query symbol
/// is true of some term.
pub proof fn lemma_filter_sound(i: Interpretation, ps: Seq<MAtom>, c: MAtom, query: Identifier)
    requires
        holds(i, RuleModel { premises: ps, conclusion: c }),
        inhabited(i, query),
        harmless(ps, c, query),
    ensures
        holds(i, RuleModel { premises: kept(ps, c, query), conclusion: c }),
{
    let all = kept(ps, c, query);
    let t = choose|t: MTerm| i.contains(#[trigger] unary(query, t));
    assert forall|th: Subst| #[trigger] satisfies_all(i, all, th) implies i.contains(
        subst_atom(c, th),
    ) by {
        let th2 = patched(th, ps, c, query, t);
        assert forall|j: int| 0 <= j < ps.len() implies i.contains(
            subst_atom(#[trigger] ps[j], th2),
        ) by {
            if keeps(ps[j], c, query) {
                lemma_kept_has(ps, c, query, j);
                let m = choose|m: int| 0 <= m < all.len() && #[trigger] all[m] == ps[j];
                assert(i.contains(subst_atom(all[m], th)));
                assert forall|x: Identifier| occurs(x, ps[j].term()) implies lookup(th2, x)
                    == lookup(th, x) by {
                    if dropped_variable(ps, c, query, x) {
                        assert(!occurs(x, ps[j].term()));
                    }
                }
                lemma_subst_atom_agree(ps[j], th2, th);
            } else {
                let x = ps[j].parameters[0]->Var_0;
                assert(dropped_variable(ps, c, query, x));
                assert(subst_atom(ps[j], th2).parameters =~= seq![t]);
                assert(subst_atom(ps[j], th2) == unary(query, t));
            }
        }
        let whole = RuleModel { premises: ps, conclusion: c };
        assert(satisfies_all(i, whole.premises, th2));
        assert(i.contains(subst_atom(whole.conclusion, th2)));
        assert forall|x: Identifier| occurs(x, c.term()) implies lookup(th2, x) == lookup(th, x) by {
            if dropped_variable(ps, c, query, x) {
                let k = choose|k: int|
                    0 <= k < ps.len() && !keeps(#[trigger] ps[k], c, query) && ps[k].parameters[0]
                        == TermModel::<Identifier>::Var(x);
                assert(!occurs(ps[k].parameters[0]->Var_0, c.term()));
            }
        }
        lemma_subst_atom_agree(c, th2, th);
    }
}

/// Whether dropping premises does no harm in the clause that the premise
/// `k` of `r1` and the conclusion of `r2` resolve to.
pub open spec fn harmless_on(r1: MRule, k: int, r2: MRule, query: Identifier) -> bool {
    match mgu_of(r1.premises[k].term(), r2.conclusion.term()) {
        Some(sig) => harmless(
            subst_atoms(r1.premises.remove(k) + r2.premises, sig),
            subst_atom(r1.conclusion, sig),
            query,
        ),
        None => true,
    }
}

/// Whether dropping premises does no harm in the resolvent of the two
/// clauses for the query symbol.
pub open spec fn resolution_harmless(r1: MRule, r2: MRule, query: Identifier) -> bool {
    match (selection(r1, query), selection(r2, query)) {
        (SelectionModel::Premise(_, k), SelectionModel::Conclusion(_)) => harmless_on(
            r1,
            k as int,
            r2,
            query,
        ),
        (SelectionModel::Conclusion(_), SelectionModel::Premise(_, k)) => harmless_on(
            r2,
            k as int,
            r1,
            query,
        ),
        _ => true,
    }
}

/// A selected premise is a premise of the clause, at the place that the
/// selection names; a selected conclusion is the conclusion.
pub proof fn lemma_selection(r: MRule, query: Identifier)
    ensures
        match selection(r, query) {
            SelectionModel::Premise(p, k) => k < r.premises.len() && r.premises[k as int] == p,
            SelectionModel::Conclusion(c) => c == r.conclusion,
        },
{
    if exists|i: int| first_selectable(r.premises, query, i) {
        let i = choose|i: int| first_selectable(r.premises, query, i);
        assert(first_selectable(r.premises, query, i));
    }
}

/// Where the premise `k` of `r1` and the conclusion of `r2` unify, and
/// both clauses hold, their resolvent holds, if dropping premises does no
/// harm in it and the query symbol is true of some term.
pub proof fn lemma_resolvent_sound(
    i: Interpretation,
    r1: MRule,
    k: int,
    r2: MRule,
    sig: Subst,
    query: Identifier,
)
    requires
        holds(i, r1),
        holds(i, r2),
        inhabited(i, query),
        0 <= k < r1.premises.len(),
        mgu_of(r1.premises[k].term(), r2.conclusion.term()) == Some(sig),
        harmless_on(r1, k, r2, query),
    ensures
        holds(i, resolvent(r1, k, r2, sig, query)),
{
    lemma_mgu_of_correct(r1.premises[k].term(), r2.conclusion.term());
    lemma_resolution_sound(i, r1, k, r2, sig);
    let u = unfiltered(r1, k, r2, sig);
    assert(u == RuleModel { premises: u.premises, conclusion: u.conclusion });
    lemma_filter_sound(i, u.premises, u.conclusion, query);
}

/// Soundness of one resolution: where two clauses hold, their resolvent
/// for the query symbol holds, if dropping premises does no harm in it and
/// the query symbol is true of some term.
pub proof fn lemma_resolve_sound(i: Interpretation, r1: MRule, r2: MRule, query: Identifier, r: MRule)
    requires
        holds(i, r1),
        holds(i, r2),
        inhabited(i, query),
        resolution_harmless(r1, r2, query),
        resolve_spec(r1, r2, query) == Some(r),
    ensures
        holds(i, r),
{
    lemma_selection(r1, query);
    lemma_selection(r2, query);
    match (selection(r1, query), selection(r2, query)) {
        (SelectionModel::Premise(p, k), SelectionModel::Conclusion(c)) => {
            let sig = mgu_of(p.term(), c.term())->0;
            lemma_resolvent_sound(i, r1, k as int, r2, sig, query);
        },
        (SelectionModel::Conclusion(c), SelectionModel::Premise(p, k)) => {
            let sig = mgu_of(p.term(), c.term())->0;
            lemma_resolvent_sound(i, r2, k as int, r1, sig, query);
        },
        _ => {},
    }
}

/// Every derivation on record resolves parents in whose resolvent
/// dropping premises does no harm, for a query symbol that is true of some
/// term.
pub open spec fn derivations_harmless(m: SnifferModel, i: Interpretation) -> bool {
    forall|k: int, query: Identifier|
        0 <= k < m.derived.len() && #[trigger] resolve_spec(
            m.derived[k].1.rules.0,
            m.derived[k].1.rules.1,
            query,
        ) == Some(m.derived[k].0) ==> inhabited(i, query) && resolution_harmless(
            m.derived[k].1.rules.0,
            m.derived[k].1.rules.1,
            query,
        )
}

/// Every clause of the initial set holds.
pub open spec fn all_hold(i: Interpretation, rules: Seq<MRule>) -> bool {
    forall|k: int| 0 <= k < rules.len() ==> holds(i, #[trigger] rules[k])
}

/// A clause with a derivation on record holds, where the clauses of the
/// initial set hold and no derivation on record does harm.
pub proof fn lemma_derived_holds(m: SnifferModel, initial: Seq<MRule>, i: Interpretation, k: int)
    requires
        sniffer_wf(m),
        accounted(m.rules, initial, m.derived),
        all_hold(i, initial),
        derivations_harmless(m, i),
        0 <= k < m.derived.len(),
    ensures
        holds(i, m.derived[k].0),
    decreases k,
{
    let entry = m.derived[k];
    let p = entry.1.rules.0;
    let q = entry.1.rules.1;
    assert(m.rules.contains(p) && m.rules.contains(q));
    assert(holds(i, p)) by {
        let n = choose|n: int| 0 <= n < m.rules.len() && m.rules[n] == p;
        assert(initial.contains(m.rules[n]) || has_derivation(m.derived, m.rules[n]));
        if initial.contains(p) {
            let j = choose|j: int| 0 <= j < initial.len() && initial[j] == p;
            assert(holds(i, initial[j]));
        } else {
            let j = choose|j: int| 0 <= j < m.derived.len() && (#[trigger] m.derived[j]).0 == p;
            assert(m.derived[j].0 == m.derived[k].1.rules.0);
            lemma_derived_holds(m, initial, i, j);
        }
    }
    assert(holds(i, q)) by {
        let n = choose|n: int| 0 <= n < m.rules.len() && m.rules[n] == q;
        assert(initial.contains(m.rules[n]) || has_derivation(m.derived, m.rules[n]));
        if initial.contains(q) {
            let j = choose|j: int| 0 <= j < initial.len() && initial[j] == q;
            assert(holds(i, initial[j]));
        } else {
            let j = choose|j: int| 0 <= j < m.derived.len() && (#[trigger] m.derived[j]).0 == q;
            assert(m.derived[j].0 == m.derived[k].1.rules.1);
            lemma_derived_holds(m, initial, i, j);
        }
    }
    crate::saturation::lemma_parent_integrity(m, k);
    let query = choose|query: Identifier| #[trigger]
        resolve_spec(m.derived[k].1.rules.0, m.derived[k].1.rules.1, query) == Some(
            m.derived[k].0,
        ) && m.derived[k].1.selected_atoms == (
            selection(m.derived[k].1.rules.0, query),
            selection(m.derived[k].1.rules.1, query),
        );
    lemma_resolve_sound(i, p, q, query, entry.0);
}

/// Soundness of saturation: every clause of the set holds in every
/// interpretation in which the clauses of the initial set hold, provided
/// that no derivation on record dropped a premise whose variable is in a
/// premise that it kept, and that each query symbol is true of some term.
pub proof fn lemma_saturation_sound(m: SnifferModel, initial: Seq<MRule>, i: Interpretation, r: MRule)
    requires
        sniffer_wf(m),
        accounted(m.rules, initial, m.derived),
        all_hold(i, initial),
        derivations_harmless(m, i),
        m.rules.contains(r),
    ensures
        holds(i, r),
{
    let n = choose|n: int| 0 <= n < m.rules.len() && m.rules[n] == r;
    assert(initial.contains(m.rules[n]) || has_derivation(m.derived, m.rules[n]));
    if initial.contains(r) {
        let j = choose|j: int| 0 <= j < initial.len() && initial[j] == r;
        assert(holds(i, initial[j]));
    } else {
        let j = choose|j: int| 0 <= j < m.derived.len() && (#[trigger] m.derived[j]).0 == r;
        lemma_derived_holds(m, initial, i, j);
    }
}

} // verus!
