//! Substitutions over term models: application, occurrence of variables,
//! size, and the lemmas that relate them.
use vstd::prelude::*;
use crate::ast::{AtomModel, RuleModel, TermModel};
use crate::identifiers::Identifier;

verus! {

/// The model of a term of the internal language.
pub type MTerm = TermModel<Identifier>;

/// The model of an atom of the internal language.
pub type MAtom = AtomModel<Identifier>;

/// The model of a clause of the internal language.
pub type MRule = RuleModel<Identifier>;

/// A substitution: a map from variable symbols to terms. A variable outside
/// the domain stands for itself.
pub type Subst = Map<Identifier, MTerm>;

/// What a substitution makes of one variable.
pub open spec fn lookup(s: Subst, x: Identifier) -> MTerm {
    if s.dom().contains(x) {
        s[x]
    } else {
        TermModel::Var(x)
    }
}

/// The term with every variable replaced by what the substitution maps it to.
pub open spec fn subst(t: MTerm, s: Subst) -> MTerm
    decreases t,
{
    match t {
        TermModel::Var(x) => lookup(s, x),
        TermModel::Fun(f, args) => TermModel::Fun(
            f,
            Seq::new(
                args.len(),
                |i: int|
                    if 0 <= i < args.len() {
                        subst(args[i], s)
                    } else {
                        arbitrary()
                    },
            ),
        ),
    }
}

/// The terms of a sequence, each with the substitution applied.
pub open spec fn subst_all(ts: Seq<MTerm>, s: Subst) -> Seq<MTerm> {
    Seq::new(ts.len(), |i: int| subst(ts[i], s))
}

/// The atom with the substitution applied to its arguments.
pub open spec fn subst_atom(a: MAtom, s: Subst) -> MAtom {
    AtomModel { symbol: a.symbol, parameters: subst_all(a.parameters, s) }
}

/// The atoms of a sequence, each with the substitution applied.
pub open spec fn subst_atoms(atoms: Seq<MAtom>, s: Subst) -> Seq<MAtom> {
    Seq::new(atoms.len(), |i: int| subst_atom(atoms[i], s))
}

/// The clause with the substitution applied to every atom.
pub open spec fn subst_rule(r: MRule, s: Subst) -> MRule {
    RuleModel { premises: subst_atoms(r.premises, s), conclusion: subst_atom(r.conclusion, s) }
}

/// Whether the variable `x` appears in the term.
pub open spec fn occurs(x: Identifier, t: MTerm) -> bool
    decreases t,
{
    match t {
        TermModel::Var(y) => x == y,
        TermModel::Fun(_, args) => exists|i: int| 0 <= i < args.len() && occurs(x, #[trigger] args[i]),
    }
}

/// The number of nodes of a term.
pub open spec fn size<S>(t: TermModel<S>) -> nat
    decreases t, 0nat,
{
    match t {
        TermModel::Var(_) => 1,
        TermModel::Fun(_, args) => 1 + sizes(args),
    }
}

/// The number of nodes of a sequence of terms.
pub open spec fn sizes<S>(ts: Seq<TermModel<S>>) -> nat
    decreases ts, 1nat,
{
    if ts.len() == 0 {
        0
    } else {
        sizes(ts.drop_last()) + size(ts.last())
    }
}

/// Unfolds one level of a substituted application.
pub proof fn lemma_subst_fun(f: Identifier, args: Seq<MTerm>, s: Subst)
    ensures
        subst(TermModel::Fun(f, args), s) is Fun,
        subst(TermModel::Fun(f, args), s)->Fun_0 == f,
        subst(TermModel::Fun(f, args), s)->Fun_1.len() == args.len(),
        forall|i: int|
            0 <= i < args.len() ==> (#[trigger] subst(TermModel::Fun(f, args), s)->Fun_1[i]) == subst(
                args[i],
                s,
            ),
        subst(TermModel::Fun(f, args), s) == TermModel::Fun(f, subst_all(args, s)),
{
    assert(subst(TermModel::Fun(f, args), s)->Fun_1 =~= subst_all(args, s));
}

/// The empty substitution changes nothing.
pub proof fn lemma_subst_empty(t: MTerm)
    ensures
        subst(t, Map::empty()) == t,
    decreases t,
{
    match t {
        TermModel::Var(x) => {},
        TermModel::Fun(f, args) => {
            lemma_subst_fun(f, args, Map::empty());
            assert forall|i: int| 0 <= i < args.len() implies subst(args[i], Map::empty())
                == args[i] by {
                lemma_subst_empty(args[i]);
            }
            assert(subst(t, Map::empty())->Fun_1 =~= args);
        },
    }
}

/// A term in which no variable of the domain occurs is left unchanged.
pub proof fn lemma_subst_fixed(t: MTerm, s: Subst)
    requires
        forall|x: Identifier| s.dom().contains(x) ==> !occurs(x, t),
    ensures
        subst(t, s) == t,
    decreases t,
{
    match t {
        TermModel::Var(x) => {
            assert(occurs(x, t));
        },
        TermModel::Fun(f, args) => {
            lemma_subst_fun(f, args, s);
            assert forall|i: int| 0 <= i < args.len() implies subst(args[i], s) == args[i] by {
                assert forall|x: Identifier| s.dom().contains(x) implies !occurs(x, args[i]) by {
                    if occurs(x, args[i]) {
                        assert(occurs(x, t));
                    }
                }
                lemma_subst_fixed(args[i], s);
            }
            assert(subst(t, s)->Fun_1 =~= args);
        },
    }
}

/// Applying `a` and then `b` maps each variable `x` to `subst(lookup(a, x), b)`.
pub proof fn lemma_subst_twice(t: MTerm, a: Subst, b: Subst, c: Subst)
    requires
        forall|x: Identifier| occurs(x, t) ==> subst(lookup(a, x), b) == lookup(c, x),
    ensures
        subst(subst(t, a), b) == subst(t, c),
    decreases t,
{
    match t {
        TermModel::Var(x) => {},
        TermModel::Fun(f, args) => {
            lemma_subst_fun(f, args, a);
            lemma_subst_fun(f, args, c);
            let ta = subst(t, a);
            lemma_subst_fun(f, ta->Fun_1, b);
            assert forall|i: int| 0 <= i < args.len() implies subst(subst(args[i], a), b) == subst(
                args[i],
                c,
            ) by {
                assert forall|x: Identifier| occurs(x, args[i]) implies subst(lookup(a, x), b)
                    == lookup(c, x) by {
                    assert(occurs(x, t));
                }
                lemma_subst_twice(args[i], a, b, c);
            }
            assert(subst(ta, b)->Fun_1 =~= subst(t, c)->Fun_1);
        },
    }
}

/// A variable of a substituted term comes from what some variable of the
/// term was mapped to.
pub proof fn lemma_occurs_subst(y: Identifier, t: MTerm, s: Subst)
    ensures
        occurs(y, subst(t, s)) <==> exists|x: Identifier| occurs(x, t) && occurs(y, #[trigger] lookup(s, x)),
    decreases t,
{
    match t {
        TermModel::Var(x) => {
            if occurs(y, subst(t, s)) {
                assert(occurs(x, t) && occurs(y, lookup(s, x)));
            }
        },
        TermModel::Fun(f, args) => {
            lemma_subst_fun(f, args, s);
            let ts = subst(t, s);
            if occurs(y, ts) {
                let i = choose|i: int| 0 <= i < ts->Fun_1.len() && occurs(y, #[trigger] ts->Fun_1[i]);
                lemma_occurs_subst(y, args[i], s);
                let x = choose|x: Identifier| occurs(x, args[i]) && occurs(y, #[trigger] lookup(s, x));
                assert(occurs(x, t) && occurs(y, lookup(s, x)));
            }
            if exists|x: Identifier| occurs(x, t) && occurs(y, #[trigger] lookup(s, x)) {
                let x = choose|x: Identifier| occurs(x, t) && occurs(y, #[trigger] lookup(s, x));
                let i = choose|i: int| 0 <= i < args.len() && occurs(x, #[trigger] args[i]);
                lemma_occurs_subst(y, args[i], s);
                assert(occurs(x, args[i]) && occurs(y, lookup(s, x)));
                assert(occurs(y, subst(args[i], s)));
                assert(occurs(y, ts->Fun_1[i]));
            }
        },
    }
}

/// Two substitutions that agree on the variables of a term make the same
/// of it.
pub proof fn lemma_subst_agree(t: MTerm, a: Subst, b: Subst)
    requires
        forall|x: Identifier| occurs(x, t) ==> lookup(a, x) == lookup(b, x),
    ensures
        subst(t, a) == subst(t, b),
    decreases t,
{
    match t {
        TermModel::Var(x) => {
            assert(occurs(x, t));
        },
        TermModel::Fun(f, args) => {
            lemma_subst_fun(f, args, a);
            lemma_subst_fun(f, args, b);
            assert forall|k: int| 0 <= k < args.len() implies subst(args[k], a) == subst(
                args[k],
                b,
            ) by {
                assert forall|x: Identifier| occurs(x, args[k]) implies lookup(a, x) == lookup(
                    b,
                    x,
                ) by {
                    assert(occurs(x, t));
                }
                lemma_subst_agree(args[k], a, b);
            }
            assert(subst_all(args, a) =~= subst_all(args, b));
        },
    }
}

} // verus!
