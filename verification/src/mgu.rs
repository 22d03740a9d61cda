//! Unifiers, most general unifiers, and the invariant that Robinson's
//! algorithm keeps while it works through its list of term pairs.
use vstd::prelude::*;
use crate::ast::TermModel;
use crate::identifiers::Identifier;
use crate::substitution::{
    lemma_occurs_subst, lemma_subst_empty, lemma_subst_fixed, lemma_subst_fun, lemma_subst_twice,
    lookup, occurs, size, sizes, subst, MTerm, Subst,
};

verus! {

/// A list of pairs of terms that remain to be made equal.
pub type Work = Seq<(MTerm, MTerm)>;

/// `th` makes `a` and `b` equal.
pub open spec fn unifies(th: Subst, a: MTerm, b: MTerm) -> bool {
    subst(a, th) == subst(b, th)
}

/// `th` is an instance of `sig`: applying `sig` first makes no difference.
pub open spec fn extends(th: Subst, sig: Subst) -> bool {
    forall|x: Identifier| #[trigger] sig.dom().contains(x) ==> subst(sig[x], th) == lookup(th, x)
}

/// No variable of the domain occurs in the range.
pub open spec fn idempotent(sig: Subst) -> bool {
    forall|x: Identifier, y: Identifier|
        sig.dom().contains(x) && sig.dom().contains(y) ==> !#[trigger] occurs(y, sig[x])
}

/// `th` makes the two sides of every pair equal.
pub open spec fn solves(th: Subst, w: Work) -> bool {
    forall|i: int| 0 <= i < w.len() ==> unifies(th, (#[trigger] w[i]).0, w[i].1)
}

/// `sig` is a most general unifier of `a` and `b`: it unifies them, it is
/// idempotent, and every unifier is an instance of it.
pub open spec fn is_mgu(sig: Subst, a: MTerm, b: MTerm) -> bool {
    &&& unifies(sig, a, b)
    &&& idempotent(sig)
    &&& forall|th: Subst| #[trigger] unifies(th, a, b) ==> extends(th, sig)
}

/// No substitution makes `a` and `b` equal.
pub open spec fn not_unifiable(a: MTerm, b: MTerm) -> bool {
    forall|th: Subst| !#[trigger] unifies(th, a, b)
}

/// The substitution that binds `x` to `f`.
pub open spec fn single(x: Identifier, f: MTerm) -> Subst {
    Map::<Identifier, MTerm>::empty().insert(x, f)
}

/// `sig` followed by the binding of `x` to `f`.
pub open spec fn bind(sig: Subst, x: Identifier, f: MTerm) -> Subst {
    Map::new(
        |y: Identifier| sig.dom().contains(y) || y == x,
        |y: Identifier|
            if y == x {
                f
            } else {
                subst(sig[y], single(x, f))
            },
    )
}

/// The pairs of the arguments of two applications of equal arity.
pub open spec fn pairs(xs: Seq<MTerm>, ys: Seq<MTerm>) -> Work {
    Seq::new(xs.len(), |i: int| (xs[i], ys[i]))
}

/// The total size of the pairs once `sig` has been applied to them.
pub open spec fn work_size(w: Work, sig: Subst) -> nat
    decreases w.len(),
{
    if w.len() == 0 {
        0
    } else {
        work_size(w.drop_last(), sig) + size(subst(w.last().0, sig)) + size(subst(w.last().1, sig))
    }
}

/// The unifiers of `a` and `b` are the instances of `sig` that solve `w`.
pub open spec fn same_unifiers(th: Subst, a: MTerm, b: MTerm, sig: Subst, w: Work) -> bool {
    unifies(th, a, b) <==> (extends(th, sig) && solves(th, w))
}

/// Every variable of the pair, after `sig`, is in `u`.
pub open spec fn covered(p: (MTerm, MTerm), sig: Subst, u: Set<Identifier>) -> bool {
    &&& forall|y: Identifier| #[trigger] occurs(y, subst(p.0, sig)) ==> u.contains(y)
    &&& forall|y: Identifier| #[trigger] occurs(y, subst(p.1, sig)) ==> u.contains(y)
}

/// The state of the algorithm: the substitution built so far, the pairs
/// still to do, and the variables that may still be bound.
pub open spec fn unify_inv(a: MTerm, b: MTerm, sig: Subst, w: Work, u: Set<Identifier>) -> bool {
    &&& idempotent(sig)
    &&& forall|th: Subst| #[trigger] same_unifiers(th, a, b, sig, w)
    &&& u.finite()
    &&& forall|i: int| 0 <= i < w.len() ==> covered(#[trigger] w[i], sig, u)
}

/// The variables of a term.
pub open spec fn vars(t: MTerm) -> Set<Identifier> {
    Set::new(|x: Identifier| occurs(x, t))
}

/// An instance of `sig` cannot tell a term from what `sig` makes of it.
pub proof fn lemma_extends_subst(th: Subst, sig: Subst, t: MTerm)
    requires
        extends(th, sig),
    ensures
        subst(subst(t, sig), th) == subst(t, th),
{
    assert forall|x: Identifier| occurs(x, t) implies subst(lookup(sig, x), th) == lookup(th, x) by {
        if sig.dom().contains(x) {
        }
    }
    lemma_subst_twice(t, sig, th, th);
}

/// An idempotent substitution leaves none of its own variables behind.
pub proof fn lemma_idempotent_clears(sig: Subst, t: MTerm, y: Identifier)
    requires
        idempotent(sig),
        sig.dom().contains(y),
    ensures
        !occurs(y, subst(t, sig)),
{
    lemma_occurs_subst(y, t, sig);
    if occurs(y, subst(t, sig)) {
        let x = choose|x: Identifier| occurs(x, t) && occurs(y, #[trigger] lookup(sig, x));
        if sig.dom().contains(x) {
            assert(!occurs(y, sig[x]));
        }
    }
}

/// Applying an idempotent substitution twice is the same as applying it once.
pub proof fn lemma_idempotent_twice(sig: Subst, t: MTerm)
    requires
        idempotent(sig),
    ensures
        subst(subst(t, sig), sig) == subst(t, sig),
{
    assert forall|x: Identifier| sig.dom().contains(x) implies !occurs(x, subst(t, sig)) by {
        lemma_idempotent_clears(sig, t, x);
    }
    lemma_subst_fixed(subst(t, sig), sig);
}

/// An idempotent substitution is an instance of itself.
pub proof fn lemma_idempotent_extends(sig: Subst)
    requires
        idempotent(sig),
    ensures
        extends(sig, sig),
{
    assert forall|x: Identifier| #[trigger] sig.dom().contains(x) implies subst(sig[x], sig)
        == lookup(sig, x) by {
        assert forall|y: Identifier| sig.dom().contains(y) implies !occurs(y, sig[x]) by {}
        lemma_subst_fixed(sig[x], sig);
    }
}

/// Each term of a sequence is no larger than the whole sequence.
pub proof fn lemma_sizes_index(ts: Seq<MTerm>, i: int)
    requires
        0 <= i < ts.len(),
    ensures
        size(ts[i]) <= sizes(ts),
    decreases ts.len(),
{
    if i < ts.len() - 1 {
        lemma_sizes_index(ts.drop_last(), i);
    }
}

/// What a variable becomes is no larger than what a term that holds it
/// becomes, and smaller when the term is an application.
pub proof fn lemma_size_occurs(x: Identifier, t: MTerm, th: Subst)
    requires
        occurs(x, t),
    ensures
        size(lookup(th, x)) <= size(subst(t, th)),
        t is Fun ==> size(lookup(th, x)) < size(subst(t, th)),
    decreases t,
{
    match t {
        TermModel::Var(y) => {},
        TermModel::Fun(f, args) => {
            lemma_subst_fun(f, args, th);
            let i = choose|i: int| 0 <= i < args.len() && occurs(x, #[trigger] args[i]);
            lemma_size_occurs(x, args[i], th);
            lemma_sizes_index(subst(t, th)->Fun_1, i);
        },
    }
}

/// The variables of the first `n` terms of a sequence.
pub open spec fn vars_upto(ts: Seq<MTerm>, n: nat) -> Set<Identifier> {
    Set::new(|x: Identifier| exists|i: int| 0 <= i < n && occurs(x, #[trigger] ts[i]))
}

/// A term has finitely many variables.
pub proof fn lemma_vars_finite(t: MTerm)
    ensures
        vars(t).finite(),
    decreases t, 0nat,
{
    match t {
        TermModel::Var(x) => {
            assert(vars(t) =~= Set::<Identifier>::empty().insert(x));
        },
        TermModel::Fun(f, args) => {
            lemma_vars_upto_finite(args, args.len());
            assert(vars(t) =~= vars_upto(args, args.len()));
        },
    }
}

/// A prefix of a sequence of terms has finitely many variables.
pub proof fn lemma_vars_upto_finite(ts: Seq<MTerm>, n: nat)
    requires
        n <= ts.len(),
    ensures
        vars_upto(ts, n).finite(),
    decreases ts, n,
{
    if n == 0 {
        assert(vars_upto(ts, n) =~= Set::<Identifier>::empty());
    } else {
        let m = (n - 1) as nat;
        lemma_vars_upto_finite(ts, m);
        lemma_vars_finite(ts[m as int]);
        assert(vars_upto(ts, n) =~= vars_upto(ts, m).union(vars(ts[m as int])));
    }
}

/// The algorithm may start from the empty substitution and the one pair.
pub proof fn lemma_unify_start(a: MTerm, b: MTerm)
    ensures
        unify_inv(a, b, Map::empty(), seq![(a, b)], vars(a).union(vars(b))),
{
    let sig = Map::<Identifier, MTerm>::empty();
    let w = seq![(a, b)];
    lemma_vars_finite(a);
    lemma_vars_finite(b);
    lemma_subst_empty(a);
    lemma_subst_empty(b);
    assert forall|th: Subst| #[trigger] same_unifiers(th, a, b, sig, w) by {
        assert(w[0] == (a, b));
    }
    assert forall|i: int| 0 <= i < w.len() implies covered(#[trigger] w[i], sig, vars(a).union(vars(b))) by {
        assert(w[i] == (a, b));
    }
}

/// With no pair left, the substitution is a most general unifier.
pub proof fn lemma_unify_done(a: MTerm, b: MTerm, sig: Subst, w: Work, u: Set<Identifier>)
    requires
        unify_inv(a, b, sig, w, u),
        w.len() == 0,
    ensures
        is_mgu(sig, a, b),
{
    lemma_idempotent_extends(sig);
    assert(same_unifiers(sig, a, b, sig, w));
    assert forall|th: Subst| #[trigger] unifies(th, a, b) implies extends(th, sig) by {
        assert(same_unifiers(th, a, b, sig, w));
    }
}

/// A pair that no instance of the substitution can solve shows that the
/// two terms have no unifier.
pub proof fn lemma_unify_stuck(a: MTerm, b: MTerm, sig: Subst, w: Work, u: Set<Identifier>)
    requires
        unify_inv(a, b, sig, w, u),
        w.len() > 0,
        not_unifiable(subst(w.last().0, sig), subst(w.last().1, sig)),
    ensures
        not_unifiable(a, b),
{
    assert forall|th: Subst| !#[trigger] unifies(th, a, b) by {
        assert(same_unifiers(th, a, b, sig, w));
        if unifies(th, a, b) {
            assert(unifies(th, w[w.len() - 1].0, w[w.len() - 1].1));
            lemma_extends_subst(th, sig, w.last().0);
            lemma_extends_subst(th, sig, w.last().1);
            assert(unifies(th, subst(w.last().0, sig), subst(w.last().1, sig)));
        }
    }
}

/// Two applications with different heads or arities have no unifier.
pub proof fn lemma_clash(p: MTerm, q: MTerm)
    requires
        p is Fun,
        q is Fun,
        p->Fun_0 != q->Fun_0 || p->Fun_1.len() != q->Fun_1.len(),
    ensures
        not_unifiable(p, q),
{
    assert forall|th: Subst| !#[trigger] unifies(th, p, q) by {
        lemma_subst_fun(p->Fun_0, p->Fun_1, th);
        lemma_subst_fun(q->Fun_0, q->Fun_1, th);
    }
}

/// A variable has no unifier with an application in which it occurs.
pub proof fn lemma_occurs_clash(x: Identifier, f: MTerm)
    requires
        f is Fun,
        occurs(x, f),
    ensures
        not_unifiable(TermModel::Var(x), f),
        not_unifiable(f, TermModel::Var(x)),
{
    assert forall|th: Subst| !#[trigger] unifies(th, TermModel::Var(x), f) by {
        lemma_size_occurs(x, f, th);
    }
    assert forall|th: Subst| !#[trigger] unifies(th, f, TermModel::Var(x)) by {
        lemma_size_occurs(x, f, th);
    }
}

/// A pair that the substitution already makes equal may be dropped.
pub proof fn lemma_unify_drop(a: MTerm, b: MTerm, sig: Subst, w: Work, u: Set<Identifier>)
    requires
        unify_inv(a, b, sig, w, u),
        w.len() > 0,
        subst(w.last().0, sig) == subst(w.last().1, sig),
    ensures
        unify_inv(a, b, sig, w.drop_last(), u),
        work_size(w.drop_last(), sig) < work_size(w, sig),
{
    let w2 = w.drop_last();
    assert forall|th: Subst| #[trigger] same_unifiers(th, a, b, sig, w2) by {
        assert(same_unifiers(th, a, b, sig, w));
        if extends(th, sig) && solves(th, w2) {
            lemma_extends_subst(th, sig, w.last().0);
            lemma_extends_subst(th, sig, w.last().1);
            assert forall|i: int| 0 <= i < w.len() implies unifies(th, (#[trigger] w[i]).0, w[i].1) by {
                if i < w2.len() {
                    assert(w2[i] == w[i]);
                }
            }
        }
        if solves(th, w) {
            assert forall|i: int| 0 <= i < w2.len() implies unifies(th, (#[trigger] w2[i]).0, w2[i].1) by {
                assert(w2[i] == w[i]);
            }
        }
    }
    assert forall|i: int| 0 <= i < w2.len() implies covered(#[trigger] w2[i], sig, u) by {
        assert(w2[i] == w[i]);
    }
}

/// Appending pairs of terms that `sig` leaves unchanged adds their sizes.
pub proof fn lemma_work_size_pairs(w: Work, xs: Seq<MTerm>, ys: Seq<MTerm>, sig: Subst)
    requires
        xs.len() == ys.len(),
        forall|i: int| 0 <= i < xs.len() ==> subst(#[trigger] xs[i], sig) == xs[i],
        forall|i: int| 0 <= i < ys.len() ==> subst(#[trigger] ys[i], sig) == ys[i],
    ensures
        work_size(w + pairs(xs, ys), sig) == work_size(w, sig) + sizes(xs) + sizes(ys),
    decreases xs.len(),
{
    let all = w + pairs(xs, ys);
    if xs.len() == 0 {
        assert(all =~= w);
    } else {
        let xs2 = xs.drop_last();
        let ys2 = ys.drop_last();
        assert(all.drop_last() =~= w + pairs(xs2, ys2));
        assert(all.last() == (xs.last(), ys.last()));
        assert forall|i: int| 0 <= i < xs2.len() implies subst(#[trigger] xs2[i], sig) == xs2[i] by {
            assert(xs2[i] == xs[i]);
        }
        assert forall|i: int| 0 <= i < ys2.len() implies subst(#[trigger] ys2[i], sig) == ys2[i] by {
            assert(ys2[i] == ys[i]);
        }
        lemma_work_size_pairs(w, xs2, ys2, sig);
        assert(subst(xs.last(), sig) == xs.last());
        assert(subst(ys.last(), sig) == ys.last());
    }
}

/// The arguments of a term that `sig` has been applied to are left unchanged
/// by `sig`, and their variables are variables of the term.
pub proof fn lemma_applied_arguments(sig: Subst, t: MTerm, i: int)
    requires
        idempotent(sig),
        subst(t, sig) is Fun,
        0 <= i < subst(t, sig)->Fun_1.len(),
    ensures
        subst(subst(t, sig)->Fun_1[i], sig) == subst(t, sig)->Fun_1[i],
        forall|y: Identifier| occurs(y, subst(t, sig)->Fun_1[i]) ==> occurs(y, subst(t, sig)),
{
    let ts = subst(t, sig);
    let r = ts->Fun_1[i];
    assert forall|y: Identifier| sig.dom().contains(y) implies !occurs(y, r) by {
        lemma_idempotent_clears(sig, t, y);
    }
    lemma_subst_fixed(r, sig);
}

/// Two applications with the same head and arity may be replaced by the
/// pairs of their arguments.
pub proof fn lemma_unify_decompose(a: MTerm, b: MTerm, sig: Subst, w: Work, u: Set<Identifier>)
    requires
        unify_inv(a, b, sig, w, u),
        w.len() > 0,
        subst(w.last().0, sig) is Fun,
        subst(w.last().1, sig) is Fun,
        subst(w.last().0, sig)->Fun_0 == subst(w.last().1, sig)->Fun_0,
        subst(w.last().0, sig)->Fun_1.len() == subst(w.last().1, sig)->Fun_1.len(),
    ensures
        unify_inv(
            a,
            b,
            sig,
            w.drop_last() + pairs(subst(w.last().0, sig)->Fun_1, subst(w.last().1, sig)->Fun_1),
            u,
        ),
        work_size(
            w.drop_last() + pairs(subst(w.last().0, sig)->Fun_1, subst(w.last().1, sig)->Fun_1),
            sig,
        ) < work_size(w, sig),
{
    let w1 = w.drop_last();
    let p = subst(w.last().0, sig);
    let q = subst(w.last().1, sig);
    let xs = p->Fun_1;
    let ys = q->Fun_1;
    let w2 = w1 + pairs(xs, ys);
    assert forall|i: int| 0 <= i < xs.len() implies subst(#[trigger] xs[i], sig) == xs[i] by {
        lemma_applied_arguments(sig, w.last().0, i);
    }
    assert forall|i: int| 0 <= i < ys.len() implies subst(#[trigger] ys[i], sig) == ys[i] by {
        lemma_applied_arguments(sig, w.last().1, i);
    }
    lemma_work_size_pairs(w1, xs, ys, sig);
    assert forall|th: Subst| #[trigger] same_unifiers(th, a, b, sig, w2) by {
        assert(same_unifiers(th, a, b, sig, w));
        if extends(th, sig) {
            lemma_extends_subst(th, sig, w.last().0);
            lemma_extends_subst(th, sig, w.last().1);
            lemma_subst_fun(p->Fun_0, xs, th);
            lemma_subst_fun(q->Fun_0, ys, th);
            if solves(th, w) {
                assert(unifies(th, w[w.len() - 1].0, w[w.len() - 1].1));
                assert forall|i: int| 0 <= i < w2.len() implies unifies(th, (#[trigger] w2[i]).0, w2[i].1) by {
                    if i < w1.len() {
                        assert(w2[i] == w[i]);
                    } else {
                        let j = i - w1.len();
                        assert(w2[i] == (xs[j], ys[j]));
                        assert(subst(p, th)->Fun_1[j] == subst(q, th)->Fun_1[j]);
                    }
                }
            }
            if solves(th, w2) {
                assert forall|j: int| 0 <= j < xs.len() implies subst(xs[j], th) == subst(ys[j], th) by {
                    assert(w2[w1.len() + j] == (xs[j], ys[j]));
                    assert(unifies(th, w2[w1.len() + j].0, w2[w1.len() + j].1));
                }
                assert(subst(p, th)->Fun_1 =~= subst(q, th)->Fun_1);
                assert(subst(p, th) == subst(q, th));
                assert forall|i: int| 0 <= i < w.len() implies unifies(th, (#[trigger] w[i]).0, w[i].1) by {
                    if i < w1.len() {
                        assert(w2[i] == w[i]);
                        assert(unifies(th, w2[i].0, w2[i].1));
                    }
                }
            }
        }
    }
    assert forall|i: int| 0 <= i < w2.len() implies covered(#[trigger] w2[i], sig, u) by {
        if i < w1.len() {
            assert(w2[i] == w[i]);
        } else {
            let j = i - w1.len();
            assert(w2[i] == (xs[j], ys[j]));
            lemma_applied_arguments(sig, w.last().0, j);
            lemma_applied_arguments(sig, w.last().1, j);
            assert(covered(w[w.len() - 1], sig, u));
            assert forall|y: Identifier| occurs(y, subst(xs[j], sig)) implies u.contains(y) by {
                assert(occurs(y, xs[j]));
                assert(occurs(y, p));
            }
            assert forall|y: Identifier| occurs(y, subst(ys[j], sig)) implies u.contains(y) by {
                assert(occurs(y, ys[j]));
                assert(occurs(y, q));
            }
        }
    }
}

/// Following `sig` by the binding of `x` amounts to applying `sig` and then
/// the binding.
pub proof fn lemma_bind_subst(sig: Subst, x: Identifier, f: MTerm, t: MTerm)
    requires
        !sig.dom().contains(x),
    ensures
        subst(t, bind(sig, x, f)) == subst(subst(t, sig), single(x, f)),
{
    let one = single(x, f);
    let sig2 = bind(sig, x, f);
    assert forall|y: Identifier| occurs(y, t) implies subst(lookup(sig, y), one) == lookup(sig2, y) by {}
    lemma_subst_twice(t, sig, one, sig2);
}

/// A substitution that maps `x` and `f` to the same term cannot tell a term
/// from what the binding of `x` to `f` makes of it.
pub proof fn lemma_single_absorbed(th: Subst, x: Identifier, f: MTerm, t: MTerm)
    requires
        subst(f, th) == lookup(th, x),
    ensures
        subst(subst(t, single(x, f)), th) == subst(t, th),
{
    let one = single(x, f);
    assert forall|y: Identifier| occurs(y, t) implies subst(lookup(one, y), th) == lookup(th, y) by {}
    lemma_subst_twice(t, one, th, th);
}

/// A variable of a term after the binding of `x` to `f` is a variable of
/// `f`, or a variable of the term other than `x`.
pub proof fn lemma_single_occurs(y: Identifier, x: Identifier, f: MTerm, t: MTerm)
    requires
        occurs(y, subst(t, single(x, f))),
    ensures
        occurs(y, f) || (y != x && occurs(y, t)),
{
    lemma_occurs_subst(y, t, single(x, f));
    let v = choose|v: Identifier| occurs(v, t) && occurs(y, #[trigger] lookup(single(x, f), v));
    if v == x {
    } else {
        assert(lookup(single(x, f), v) == TermModel::<Identifier>::Var(v));
    }
}

/// Binding a variable keeps the substitution idempotent, when the variable
/// is new and the term free of it and of the variables bound before.
pub proof fn lemma_bind_idempotent(sig: Subst, x: Identifier, f: MTerm)
    requires
        idempotent(sig),
        !sig.dom().contains(x),
        !occurs(x, f),
        forall|y: Identifier| sig.dom().contains(y) ==> !occurs(y, f),
    ensures
        idempotent(bind(sig, x, f)),
{
    let sig2 = bind(sig, x, f);
    assert forall|y: Identifier, z: Identifier|
        sig2.dom().contains(y) && sig2.dom().contains(z) implies !#[trigger] occurs(z, sig2[y]) by {
        if y != x && occurs(z, sig2[y]) {
            lemma_single_occurs(z, x, f, sig[y]);
            if !occurs(z, f) {
                assert(!occurs(z, sig[y]));
            }
        }
    }
}

/// The instances of `sig` that make `Var(x)` and `f` equal are the instances
/// of `sig` followed by the binding of `x` to `f`.
pub proof fn lemma_bind_extends(th: Subst, sig: Subst, x: Identifier, f: MTerm)
    requires
        !sig.dom().contains(x),
    ensures
        extends(th, bind(sig, x, f)) <==> extends(th, sig) && subst(f, th) == lookup(th, x),
{
    let sig2 = bind(sig, x, f);
    if extends(th, sig) && subst(f, th) == lookup(th, x) {
        assert forall|y: Identifier| #[trigger] sig2.dom().contains(y) implies subst(sig2[y], th)
            == lookup(th, y) by {
            if y != x {
                assert(sig.dom().contains(y));
                lemma_single_absorbed(th, x, f, sig[y]);
            }
        }
    }
    if extends(th, sig2) {
        assert(sig2.dom().contains(x));
        assert(subst(f, th) == lookup(th, x));
        assert forall|y: Identifier| #[trigger] sig.dom().contains(y) implies subst(sig[y], th)
            == lookup(th, y) by {
            assert(sig2.dom().contains(y));
            lemma_single_absorbed(th, x, f, sig[y]);
        }
    }
}

/// A pair of a new variable and a term free of it may be replaced by a
/// binding, and one variable fewer may still be bound.
pub proof fn lemma_unify_bind(
    a: MTerm,
    b: MTerm,
    sig: Subst,
    w: Work,
    u: Set<Identifier>,
    x: Identifier,
    f: MTerm,
)
    requires
        unify_inv(a, b, sig, w, u),
        w.len() > 0,
        (subst(w.last().0, sig) == TermModel::<Identifier>::Var(x) && subst(w.last().1, sig) == f) || (
        subst(w.last().1, sig) == TermModel::<Identifier>::Var(x) && subst(w.last().0, sig) == f),
        !occurs(x, f),
    ensures
        !sig.dom().contains(x),
        forall|y: Identifier| sig.dom().contains(y) ==> !occurs(y, f),
        u.contains(x),
        unify_inv(a, b, bind(sig, x, f), w.drop_last(), u.remove(x)),
{
    let w2 = w.drop_last();
    let sig2 = bind(sig, x, f);
    let t = w.last().0;
    let v = w.last().1;
    let vx = TermModel::<Identifier>::Var(x);
    assert(covered(w[w.len() - 1], sig, u));
    assert(occurs(x, vx));
    if sig.dom().contains(x) {
        lemma_idempotent_clears(sig, t, x);
        lemma_idempotent_clears(sig, v, x);
    }
    assert forall|y: Identifier| sig.dom().contains(y) implies !occurs(y, f) by {
        lemma_idempotent_clears(sig, t, y);
        lemma_idempotent_clears(sig, v, y);
    }
    lemma_bind_idempotent(sig, x, f);
    assert forall|th: Subst| #[trigger] same_unifiers(th, a, b, sig2, w2) by {
        assert(same_unifiers(th, a, b, sig, w));
        lemma_bind_extends(th, sig, x, f);
        if extends(th, sig) {
            lemma_extends_subst(th, sig, t);
            lemma_extends_subst(th, sig, v);
            assert(unifies(th, t, v) <==> subst(f, th) == lookup(th, x));
        }
        if solves(th, w) {
            assert(unifies(th, w[w.len() - 1].0, w[w.len() - 1].1));
            assert forall|i: int| 0 <= i < w2.len() implies unifies(th, (#[trigger] w2[i]).0, w2[i].1) by {
                assert(w2[i] == w[i]);
            }
        }
        if solves(th, w2) && unifies(th, t, v) {
            assert forall|i: int| 0 <= i < w.len() implies unifies(th, (#[trigger] w[i]).0, w[i].1) by {
                if i < w2.len() {
                    assert(w2[i] == w[i]);
                }
            }
        }
    }
    assert forall|i: int| 0 <= i < w2.len() implies covered(#[trigger] w2[i], sig2, u.remove(x)) by {
        assert(w2[i] == w[i]);
        assert(covered(w[i], sig, u));
        lemma_bind_subst(sig, x, f, w[i].0);
        lemma_bind_subst(sig, x, f, w[i].1);
        assert forall|y: Identifier| #[trigger] occurs(y, subst(w2[i].0, sig2)) implies u.remove(
            x,
        ).contains(y) by {
            lemma_single_occurs(y, x, f, subst(w[i].0, sig));
        }
        assert forall|y: Identifier| #[trigger] occurs(y, subst(w2[i].1, sig2)) implies u.remove(
            x,
        ).contains(y) by {
            lemma_single_occurs(y, x, f, subst(w[i].1, sig));
        }
    }
}

/// What the algorithm returns from a given state: it takes the last pair,
/// applies the substitution to both sides, and drops the pair, binds a
/// variable, splits two applications into their arguments, or gives up.
pub open spec fn unify_from(a: MTerm, b: MTerm, sig: Subst, w: Work, u: Set<Identifier>) -> Option<
    Subst,
>
    decreases u.len(), work_size(w, sig),
    when unify_inv(a, b, sig, w, u)
    via unify_from_decreases
{
    if w.len() == 0 {
        Some(sig)
    } else {
        let p = subst(w.last().0, sig);
        let q = subst(w.last().1, sig);
        if p == q {
            unify_from(a, b, sig, w.drop_last(), u)
        } else if p is Var {
            if occurs(p->Var_0, q) {
                None
            } else {
                unify_from(a, b, bind(sig, p->Var_0, q), w.drop_last(), u.remove(p->Var_0))
            }
        } else if q is Var {
            if occurs(q->Var_0, p) {
                None
            } else {
                unify_from(a, b, bind(sig, q->Var_0, p), w.drop_last(), u.remove(q->Var_0))
            }
        } else if p->Fun_0 != q->Fun_0 || p->Fun_1.len() != q->Fun_1.len() {
            None
        } else {
            unify_from(a, b, sig, w.drop_last() + pairs(p->Fun_1, q->Fun_1), u)
        }
    }
}

#[via_fn]
proof fn unify_from_decreases(a: MTerm, b: MTerm, sig: Subst, w: Work, u: Set<Identifier>) {
    if w.len() != 0 {
        let p = subst(w.last().0, sig);
        let q = subst(w.last().1, sig);
        if p == q {
            lemma_unify_drop(a, b, sig, w, u);
        } else if p is Var {
            if !occurs(p->Var_0, q) {
                lemma_unify_bind(a, b, sig, w, u, p->Var_0, q);
            }
        } else if q is Var {
            if !occurs(q->Var_0, p) {
                lemma_unify_bind(a, b, sig, w, u, q->Var_0, p);
            }
        } else if p->Fun_0 != q->Fun_0 || p->Fun_1.len() != q->Fun_1.len() {
        } else {
            lemma_unify_decompose(a, b, sig, w, u);
        }
    }
}

/// The unifier that the algorithm computes for two terms, if they have one.
pub open spec fn mgu_of(a: MTerm, b: MTerm) -> Option<Subst> {
    unify_from(a, b, Map::empty(), seq![(a, b)], vars(a).union(vars(b)))
}

/// From any state that the algorithm can be in, it returns a most general
/// unifier of the two terms, or nothing when they have no unifier.
pub proof fn lemma_unify_from_correct(a: MTerm, b: MTerm, sig: Subst, w: Work, u: Set<Identifier>)
    requires
        unify_inv(a, b, sig, w, u),
    ensures
        match unify_from(a, b, sig, w, u) {
            Some(r) => is_mgu(r, a, b),
            None => not_unifiable(a, b),
        },
    decreases u.len(), work_size(w, sig),
{
    if w.len() == 0 {
        lemma_unify_done(a, b, sig, w, u);
    } else {
        let p = subst(w.last().0, sig);
        let q = subst(w.last().1, sig);
        if p == q {
            lemma_unify_drop(a, b, sig, w, u);
            lemma_unify_from_correct(a, b, sig, w.drop_last(), u);
        } else if p is Var {
            if occurs(p->Var_0, q) {
                lemma_occurs_clash(p->Var_0, q);
                lemma_unify_stuck(a, b, sig, w, u);
            } else {
                lemma_unify_bind(a, b, sig, w, u, p->Var_0, q);
                lemma_unify_from_correct(
                    a,
                    b,
                    bind(sig, p->Var_0, q),
                    w.drop_last(),
                    u.remove(p->Var_0),
                );
            }
        } else if q is Var {
            if occurs(q->Var_0, p) {
                lemma_occurs_clash(q->Var_0, p);
                lemma_unify_stuck(a, b, sig, w, u);
            } else {
                lemma_unify_bind(a, b, sig, w, u, q->Var_0, p);
                lemma_unify_from_correct(
                    a,
                    b,
                    bind(sig, q->Var_0, p),
                    w.drop_last(),
                    u.remove(q->Var_0),
                );
            }
        } else if p->Fun_0 != q->Fun_0 || p->Fun_1.len() != q->Fun_1.len() {
            lemma_clash(p, q);
            lemma_unify_stuck(a, b, sig, w, u);
        } else {
            lemma_unify_decompose(a, b, sig, w, u);
            lemma_unify_from_correct(a, b, sig, w.drop_last() + pairs(p->Fun_1, q->Fun_1), u);
        }
    }
}

/// Unification succeeds exactly on the pairs of terms that have a unifier,
/// and then with a most general one.
pub proof fn lemma_mgu_of_correct(a: MTerm, b: MTerm)
    ensures
        match mgu_of(a, b) {
            Some(r) => is_mgu(r, a, b),
            None => not_unifiable(a, b),
        },
{
    lemma_unify_start(a, b);
    lemma_unify_from_correct(a, b, Map::empty(), seq![(a, b)], vars(a).union(vars(b)));
}

/// Reflexivity: a term unifies with itself, and nothing is bound.
pub proof fn lemma_unify_reflexive(s: MTerm)
    ensures
        mgu_of(s, s) == Some(Map::<Identifier, MTerm>::empty()),
{
    let sig = Map::<Identifier, MTerm>::empty();
    let w = seq![(s, s)];
    let u = vars(s).union(vars(s));
    lemma_unify_start(s, s);
    assert(w.last() == (s, s));
    lemma_unify_drop(s, s, sig, w, u);
    assert(w.drop_last().len() == 0);
    assert(unify_from(s, s, sig, w.drop_last(), u) == Some(sig));
    assert(unify_from(s, s, sig, w, u) == unify_from(s, s, sig, w.drop_last(), u));
}

/// Soundness: the computed substitution makes the two terms equal.
pub proof fn lemma_unify_sound(s: MTerm, t: MTerm, sig: Subst)
    requires
        mgu_of(s, t) == Some(sig),
    ensures
        subst(s, sig) == subst(t, sig),
{
    lemma_mgu_of_correct(s, t);
}

/// Idempotence: applying the computed substitution a second time changes
/// nothing, whatever the term.
pub proof fn lemma_unify_idempotent(a: MTerm, b: MTerm, sig: Subst, s: MTerm)
    requires
        mgu_of(a, b) == Some(sig),
    ensures
        subst(subst(s, sig), sig) == subst(s, sig),
{
    lemma_mgu_of_correct(a, b);
    lemma_idempotent_twice(sig, s);
}

/// Completeness: unification fails only on terms that no substitution
/// makes equal.
pub proof fn lemma_unify_complete(s: MTerm, t: MTerm, tau: Subst)
    requires
        subst(s, tau) == subst(t, tau),
    ensures
        mgu_of(s, t) is Some,
{
    lemma_mgu_of_correct(s, t);
    assert(unifies(tau, s, t));
}

/// `tau` is `sig` followed by `rho`.
pub open spec fn factors(tau: Subst, sig: Subst, rho: Subst) -> bool {
    forall|x: Identifier| #[trigger] lookup(tau, x) == subst(lookup(sig, x), rho)
}

/// Most general: every unifier `tau` of the two terms factors through the
/// computed one: some `rho` gives `tau` when it follows `sig`.
pub proof fn lemma_unify_most_general(s: MTerm, t: MTerm, sig: Subst, tau: Subst)
    requires
        mgu_of(s, t) == Some(sig),
        subst(s, tau) == subst(t, tau),
    ensures
        exists|rho: Subst| #[trigger] factors(tau, sig, rho),
{
    lemma_mgu_of_correct(s, t);
    assert(unifies(tau, s, t));
    assert(extends(tau, sig));
    assert forall|x: Identifier| #[trigger] lookup(tau, x) == subst(lookup(sig, x), tau) by {
        if sig.dom().contains(x) {
        }
    }
    assert(factors(tau, sig, tau));
}

/// The occurs-check: a variable does not unify with an application that
/// holds it.
pub proof fn lemma_unify_occurs(x: Identifier, f: MTerm)
    requires
        f is Fun,
        occurs(x, f),
    ensures
        mgu_of(TermModel::Var(x), f) is None,
        mgu_of(f, TermModel::Var(x)) is None,
{
    lemma_occurs_clash(x, f);
    lemma_mgu_of_correct(TermModel::Var(x), f);
    lemma_mgu_of_correct(f, TermModel::Var(x));
    if mgu_of(TermModel::Var(x), f) is Some {
        assert(unifies(mgu_of(TermModel::Var(x), f)->0, TermModel::Var(x), f));
    }
    if mgu_of(f, TermModel::Var(x)) is Some {
        assert(unifies(mgu_of(f, TermModel::Var(x))->0, f, TermModel::Var(x)));
    }
}

/// Two applications with different heads or different arities do not unify.
pub proof fn lemma_unify_clash(p: MTerm, q: MTerm)
    requires
        p is Fun,
        q is Fun,
        p->Fun_0 != q->Fun_0 || p->Fun_1.len() != q->Fun_1.len(),
    ensures
        mgu_of(p, q) is None,
{
    lemma_clash(p, q);
    lemma_mgu_of_correct(p, q);
    if mgu_of(p, q) is Some {
        assert(unifies(mgu_of(p, q)->0, p, q));
    }
}

} // verus!
