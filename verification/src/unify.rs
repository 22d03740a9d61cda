//! Robinson unification with occurs-check, over a list of pairs of terms:
//! the bindings are kept idempotent, and a union-find over the variables
//! tells which of them were bound to one another.
use vstd::prelude::*;
use crate::ast::{lemma_term_view, Atom, InnerAtom, InnerTerm, Term, TermModel};
use crate::bindings::Bindings;
use crate::identifiers::Identifier;
use crate::mgu::{
    bind, idempotent, lemma_bind_idempotent, lemma_bind_subst, lemma_idempotent_clears, is_mgu, lemma_clash,
    lemma_occurs_clash, lemma_unify_bind, lemma_unify_decompose, lemma_unify_done,
    lemma_unify_drop, lemma_unify_start, lemma_unify_stuck, mgu_of, not_unifiable, pairs,
    unify_from, unify_inv, vars, work_size, Work,
};
use crate::substitution::{lookup, occurs, subst, MTerm, Subst};
use crate::union_find::{lemma_merged_classes, with_key, UnionFind};

verus! {

/// The models of the pairs of terms that remain to be unified.
pub open spec fn work_view(ws: Seq<(InnerTerm, InnerTerm)>) -> Work {
    Seq::new(ws.len(), |i: int| (ws[i].0@, ws[i].1@))
}

/// Whether `u` is the term `t` or one of its subterms.
pub open spec fn subterm(u: MTerm, t: MTerm) -> bool
    decreases t,
{
    t == u || match t {
        TermModel::Var(_) => false,
        TermModel::Fun(_, args) => exists|i: int| 0 <= i < args.len() && subterm(u, #[trigger] args[i]),
    }
}

/// A variable is a subterm exactly where it occurs.
pub proof fn lemma_subterm_variable(x: Identifier, t: MTerm)
    ensures
        subterm(TermModel::Var(x), t) == occurs(x, t),
    decreases t,
{
    match t {
        TermModel::Var(_) => {},
        TermModel::Fun(_, args) => {
            assert forall|i: int| 0 <= i < args.len() implies subterm(
                TermModel::Var(x),
                #[trigger] args[i],
            ) == occurs(x, args[i]) by {
                lemma_subterm_variable(x, args[i]);
            }
        },
    }
}

/// The classes of variables agree with the substitution: two variables of
/// one class are replaced by the same term.
pub open spec fn aliases_hold(classes: Map<usize, usize>, sig: Subst) -> bool {
    forall|a: usize, b: usize|
        #![trigger classes[a], classes[b]]
        classes.dom().contains(a) && classes.dom().contains(b) && classes[a] == classes[b]
            ==> lookup(sig, Identifier::Variable(a)) == lookup(sig, Identifier::Variable(b))
}

/// Binding a new variable keeps the classes of variables in agreement with
/// the substitution.
pub proof fn lemma_aliases_bind(classes: Map<usize, usize>, sig: Subst, x: Identifier, f: MTerm)
    requires
        aliases_hold(classes, sig),
        !sig.dom().contains(x),
    ensures
        aliases_hold(classes, bind(sig, x, f)),
{
    let sig2 = bind(sig, x, f);
    assert forall|a: usize, b: usize|
        #![trigger classes[a], classes[b]]
        classes.dom().contains(a) && classes.dom().contains(b) && classes[a]
            == classes[b] implies lookup(sig2, Identifier::Variable(a)) == lookup(
        sig2,
        Identifier::Variable(b),
    ) by {
        lemma_bind_subst(sig, x, f, TermModel::Var(Identifier::Variable(a)));
        lemma_bind_subst(sig, x, f, TermModel::Var(Identifier::Variable(b)));
    }
}

/// Whether the two terms are variables that are keys of the classes and
/// have the same representative there.
pub open spec fn in_one_class(classes: Map<usize, usize>, t: MTerm, u: MTerm) -> bool {
    &&& t is Var
    &&& u is Var
    &&& t->Var_0 is Variable
    &&& u->Var_0 is Variable
    &&& classes.dom().contains(t->Var_0->Variable_0)
    &&& classes.dom().contains(u->Var_0->Variable_0)
    &&& classes[t->Var_0->Variable_0] == classes[u->Var_0->Variable_0]
}

/// The state of a unification: the bindings made so far, kept idempotent,
/// and the classes of the variables that were bound to one another, which
/// tell without a look at the bindings that two variables stand for the
/// same term.
pub struct UnificationGraph {
    classes: UnionFind,
    bound: Bindings,
}

impl View for UnificationGraph {
    type V = Subst;

    closed spec fn view(&self) -> Subst {
        self.bound@
    }
}

impl Default for UnificationGraph {
    fn default() -> (r: Self)
        ensures
            r@ == Map::<Identifier, MTerm>::empty(),
    {
        UnificationGraph { classes: UnionFind::new(), bound: Bindings::new() }
    }
}

impl UnificationGraph {
    #[verifier::type_invariant]
    spec fn well_formed(&self) -> bool {
        &&& idempotent(self.bound@)
        &&& self.classes.wf()
        &&& aliases_hold(self.classes@, self.bound@)
    }

    /// Whether the two terms are variables of one class: both are keys of
    /// the classes of variables and have the same representative. Then the
    /// graph makes the same term of both.
    fn aliased(&self, t: &InnerTerm, u: &InnerTerm) -> (r: bool)
        ensures
            r == in_one_class(self.classes@, t@, u@),
            r ==> subst(t@, self@) == subst(u@, self@),
    {
        proof {
            use_type_invariant(self);
            lemma_term_view(*t);
            lemma_term_view(*u);
        }
        match (t, u) {
            (
                Term::Variable { symbol: Identifier::Variable(a) },
                Term::Variable { symbol: Identifier::Variable(b) },
            ) => match (self.classes.find_equivalence(*a), self.classes.find_equivalence(*b)) {
                (Some(ra), Some(rb)) => ra == rb,
                _ => false,
            },
            _ => false,
        }
    }

    /// What the graph makes of a term.
    pub fn deref(&self, term: &InnerTerm) -> (r: InnerTerm)
        ensures
            r@ == subst(term@, self@),
    {
        term.apply(&self.bound)
    }

    /// What the graph makes of a term. For a variable that was bound to
    /// another, the way to the representative of its class is made short;
    /// the graph stands for the same substitution as before.
    pub fn deref_mut(&mut self, term: InnerTerm) -> (r: InnerTerm)
        ensures
            r@ == subst(term@, old(self)@),
            final(self)@ == old(self)@,
    {
        proof {
            use_type_invariant(&*self);
        }
        let key = match &term {
            Term::Variable { symbol: Identifier::Variable(a) } => Some(*a),
            _ => None,
        };
        match key {
            Some(a) => {
                let mut classes = UnionFind::new();
                core::mem::swap(&mut self.classes, &mut classes);
                if classes.find_equivalence(a).is_some() {
                    let _ = classes.find_equivalence_mut(a);
                }
                core::mem::swap(&mut self.classes, &mut classes);
            },
            None => {},
        }
        term.apply(&self.bound)
    }

    /// Binds the variable `symbol` to what the graph makes of `term`.
    /// Returns `false`, and changes nothing, if the variable is already
    /// bound or occurs in that term.
    pub fn bind(&mut self, symbol: Identifier, term: InnerTerm) -> (ok: bool)
        ensures
            ok == (!old(self)@.dom().contains(symbol) && !occurs(symbol, subst(term@, old(self)@))),
            ok ==> final(self)@ == bind(old(self)@, symbol, subst(term@, old(self)@)),
            !ok ==> final(self)@ == old(self)@,
    {
        proof {
            use_type_invariant(&*self);
        }
        let image = term.apply(&self.bound);
        if self.bound.lookup(symbol).is_some() || image.mentions(symbol) {
            return false;
        }
        proof {
            assert forall|y: Identifier| self.bound@.dom().contains(y) implies !occurs(y, image@) by {
                lemma_idempotent_clears(self.bound@, term@, y);
            }
        }
        self.attach(symbol, image);
        true
    }

    /// Makes two variables stand for the same term: where the graph makes
    /// two distinct variables of `x` and `y`, the first is bound to the
    /// second. Otherwise nothing changes.
    pub fn union(&mut self, x: InnerTerm, y: InnerTerm)
        ensures
            final(self)@ == (if subst(x@, old(self)@) is Var && subst(y@, old(self)@) is Var && subst(
                x@,
                old(self)@,
            ) != subst(y@, old(self)@) {
                bind(old(self)@, subst(x@, old(self)@)->Var_0, subst(y@, old(self)@))
            } else {
                old(self)@
            }),
    {
        proof {
            use_type_invariant(&*self);
        }
        let a = x.apply(&self.bound);
        let b = y.apply(&self.bound);
        if a.is_variable() && b.is_variable() && !a.equals(&b) {
            let v = *a.symbol();
            proof {
                if self.bound@.dom().contains(v) {
                    lemma_idempotent_clears(self.bound@, x@, v);
                }
                assert forall|z: Identifier| self.bound@.dom().contains(z) implies !occurs(z, b@) by {
                    lemma_idempotent_clears(self.bound@, y@, z);
                }
            }
            self.attach(v, b);
        }
    }

    /// Binds the new variable `x` to the term `f`, which holds neither `x`
    /// nor a variable that is bound. Where `f` is a variable too, the
    /// classes of the two are merged.
    fn attach(&mut self, x: Identifier, f: InnerTerm)
        requires
            !old(self)@.dom().contains(x),
            !occurs(x, f@),
            forall|y: Identifier| old(self)@.dom().contains(y) ==> !occurs(y, f@),
        ensures
            final(self)@ == bind(old(self)@, x, f@),
    {
        proof {
            use_type_invariant(&*self);
            lemma_bind_idempotent(self.bound@, x, f@);
            lemma_aliases_bind(self.classes@, self.bound@, x, f@);
            lemma_term_view(f);
        }
        let ghost sig = self.bound@;
        let ghost sig2 = bind(sig, x, f@);
        let pair = match (&x, &f) {
            (Identifier::Variable(a), Term::Variable { symbol: Identifier::Variable(b) }) => Some(
                (*a, *b),
            ),
            _ => None,
        };
        proof {
            if let Some((a, b)) = pair {
                assert(x == Identifier::Variable(a));
                assert(f@ == TermModel::<Identifier>::Var(Identifier::Variable(b)));
                assert(occurs(Identifier::Variable(b), f@));
                assert(!sig.dom().contains(Identifier::Variable(b)));
                assert(a != b);
                assert(lookup(sig2, Identifier::Variable(a)) == f@);
                assert(lookup(sig2, Identifier::Variable(b)) == f@);
            }
        }
        let mut classes = UnionFind::new();
        core::mem::swap(&mut self.classes, &mut classes);
        self.bound = self.bound.extended(x, f);
        match pair {
            Some((a, b)) => {
                let ghost m = classes@;
                proof {
                    classes.lemma_representatives();
                }
                classes.union(a, b);
                proof {
                    let m2 = with_key(with_key(m, a), b);
                    assert(aliases_hold(m2, sig2)) by {
                        assert forall|p: usize, q: usize|
                            #![trigger m2[p], m2[q]]
                            m2.dom().contains(p) && m2.dom().contains(q) && m2[p]
                                == m2[q] implies lookup(sig2, Identifier::Variable(p)) == lookup(
                            sig2,
                            Identifier::Variable(q),
                        ) by {
                            if m.dom().contains(p) {
                                assert(m.dom().contains(m[p]));
                            }
                            if m.dom().contains(q) {
                                assert(m.dom().contains(m[q]));
                            }
                            if m.dom().contains(p) && m.dom().contains(q) {
                                assert(m[p] == m[q]);
                            }
                        }
                    }
                    assert(aliases_hold(classes@, sig2)) by {
                        assert forall|p: usize, q: usize|
                            #![trigger classes@[p], classes@[q]]
                            classes@.dom().contains(p) && classes@.dom().contains(q) && classes@[p]
                                == classes@[q] implies lookup(sig2, Identifier::Variable(p))
                            == lookup(sig2, Identifier::Variable(q)) by {
                            lemma_merged_classes(m2, m2[a], m2[b], p, q);
                            lemma_merged_classes(m2, m2[b], m2[a], p, q);
                            assert(m2[p] == m2[a] ==> lookup(sig2, Identifier::Variable(p))
                                == lookup(sig2, Identifier::Variable(a)));
                            assert(m2[p] == m2[b] ==> lookup(sig2, Identifier::Variable(p))
                                == lookup(sig2, Identifier::Variable(b)));
                            assert(m2[q] == m2[a] ==> lookup(sig2, Identifier::Variable(q))
                                == lookup(sig2, Identifier::Variable(a)));
                            assert(m2[q] == m2[b] ==> lookup(sig2, Identifier::Variable(q))
                                == lookup(sig2, Identifier::Variable(b)));
                        }
                    }
                }
            },
            None => {},
        }
        core::mem::swap(&mut self.classes, &mut classes);
    }

    /// The substitution that the graph stands for.
    pub fn bindings(self) -> (r: Bindings)
        ensures
            r@ == self@,
            idempotent(r@),
    {
        proof {
            use_type_invariant(&self);
        }
        self.bound
    }
}

impl Atom<Identifier> {
    /// A most general unifier of the two atoms, seen as terms, or `None`
    /// when they have no unifier.
    pub fn unify(&self, other: &InnerAtom) -> (r: Option<Bindings>)
        ensures
            match r {
                Some(b) => is_mgu(b@, self@.term(), other@.term()) && mgu_of(
                    self@.term(),
                    other@.term(),
                ) == Some(b@),
                None => not_unifiable(self@.term(), other@.term()) && mgu_of(
                    self@.term(),
                    other@.term(),
                ) is None,
            },
    {
        self.to_term().unify(&other.to_term())
    }
}

impl Term<Identifier> {
    /// Whether `u` is `t` or one of its subterms.
    #[verifier::loop_isolation(false)]
    pub fn has_subterm(&self, u: &InnerTerm) -> (r: bool)
        ensures
            r == subterm(u@, self@),
        decreases self,
    {
        proof {
            lemma_term_view(*self);
        }
        if self.equals(u) {
            return true;
        }
        match self {
            Term::Variable { .. } => false,
            Term::Function { parameters, .. } => {
                let mut i: usize = 0;
                while i < parameters.len()
                    invariant
                        i <= parameters.len(),
                        forall|j: int| 0 <= j < i ==> !subterm(u@, (#[trigger] parameters[j])@),
                    decreases parameters.len() - i,
                {
                    if parameters[i].has_subterm(u) {
                        assert(subterm(u@, self@->Fun_1[i as int]));
                        return true;
                    }
                    i += 1;
                }
                assert forall|j: int| 0 <= j < self@->Fun_1.len() implies !subterm(
                    u@,
                    #[trigger] self@->Fun_1[j],
                ) by {
                    assert(!subterm(u@, parameters[j]@));
                }
                false
            },
        }
    }

    /// Whether `u` is a subterm of what the graph makes of this term. For a
    /// variable `u` this is the occurs-check.
    pub fn contains(&self, u: &InnerTerm, context: &UnificationGraph) -> (r: bool)
        ensures
            r == subterm(u@, subst(self@, context@)),
    {
        let image = context.deref(self);
        match u {
            Term::Variable { symbol } => {
                proof {
                    lemma_term_view(*u);
                    lemma_subterm_variable(*symbol, image@);
                }
                image.mentions(*symbol)
            },
            Term::Function { .. } => image.has_subterm(u),
        }
    }

    /// A most general unifier of this term and `other`, or `None` when the
    /// two terms have no unifier.
    pub fn unify(&self, other: &InnerTerm) -> (r: Option<Bindings>)
        ensures
            match r {
                Some(b) => is_mgu(b@, self@, other@) && mgu_of(self@, other@) == Some(b@),
                None => not_unifiable(self@, other@) && mgu_of(self@, other@) is None,
            },
    {
        let mut context = UnificationGraph::default();
        let mut to_visit: Vec<(InnerTerm, InnerTerm)> = Vec::new();
        to_visit.push((self.clone(), other.clone()));
        let ghost mut unbound: Set<Identifier> = vars(self@).union(vars(other@));
        proof {
            lemma_unify_start(self@, other@);
            assert(work_view(to_visit@) =~= seq![(self@, other@)]);
        }
        while to_visit.len() > 0
            invariant
                unify_inv(self@, other@, context@, work_view(to_visit@), unbound),
                unify_from(self@, other@, context@, work_view(to_visit@), unbound) == mgu_of(
                    self@,
                    other@,
                ),
            decreases unbound.len(), work_size(work_view(to_visit@), context@),
        {
            let ghost w = work_view(to_visit@);
            let ghost sig = context@;
            let pair = to_visit.pop().unwrap();
            proof {
                assert(work_view(to_visit@) =~= w.drop_last());
                assert(w.last() == (pair.0@, pair.1@));
            }
            if context.aliased(&pair.0, &pair.1) {
                proof {
                    lemma_unify_drop(self@, other@, sig, w, unbound);
                }
                continue;
            }
            let t = context.deref(&pair.0);
            let u = context.deref(&pair.1);
            if t.equals(&u) {
                proof {
                    lemma_unify_drop(self@, other@, sig, w, unbound);
                }
            } else if t.is_variable() {
                let x = *t.symbol();
                if u.mentions(x) {
                    proof {
                        lemma_occurs_clash(x, u@);
                        lemma_unify_stuck(self@, other@, sig, w, unbound);
                    }
                    return None;
                }
                proof {
                    lemma_unify_bind(self@, other@, sig, w, unbound, x, u@);
                    unbound = unbound.remove(x);
                }
                context.attach(x, u);
            } else if u.is_variable() {
                let x = *u.symbol();
                if t.mentions(x) {
                    proof {
                        lemma_occurs_clash(x, t@);
                        lemma_unify_stuck(self@, other@, sig, w, unbound);
                    }
                    return None;
                }
                proof {
                    lemma_unify_bind(self@, other@, sig, w, unbound, x, t@);
                    unbound = unbound.remove(x);
                }
                context.attach(x, t);
            } else {
                proof {
                    lemma_term_view(t);
                    lemma_term_view(u);
                }
                match (&t, &u) {
                    (
                        Term::Function { symbol: f, parameters: ps },
                        Term::Function { symbol: g, parameters: qs },
                    ) => {
                        if *f != *g || ps.len() != qs.len() {
                            proof {
                                lemma_clash(t@, u@);
                                lemma_unify_stuck(self@, other@, sig, w, unbound);
                            }
                            return None;
                        }
                        let ghost rest = work_view(to_visit@);
                        let ghost added = pairs(t@->Fun_1, u@->Fun_1);
                        let mut i: usize = 0;
                        while i < ps.len()
                            invariant
                                i <= ps.len(),
                                ps.len() == qs.len(),
                                added.len() == ps.len(),
                                forall|j: int|
                                    0 <= j < ps.len() ==> #[trigger] added[j] == (ps[j]@, qs[j]@),
                                work_view(to_visit@) == rest + added.subrange(0, i as int),
                            decreases ps.len() - i,
                        {
                            let ghost before = work_view(to_visit@);
                            to_visit.push((ps[i].clone(), qs[i].clone()));
                            proof {
                                assert(added[i as int] == (ps[i as int]@, qs[i as int]@));
                                assert(work_view(to_visit@) =~= before.push(added[i as int]));
                                assert(added.subrange(0, i as int + 1) =~= added.subrange(
                                    0,
                                    i as int,
                                ).push(added[i as int]));
                                assert(work_view(to_visit@) =~= rest + added.subrange(
                                    0,
                                    i as int + 1,
                                ));
                            }
                            i += 1;
                        }
                        proof {
                            assert(added.subrange(0, i as int) =~= added);
                            lemma_unify_decompose(self@, other@, sig, w, unbound);
                        }
                    },
                    _ => {},
                }
            }
        }
        proof {
            lemma_unify_done(self@, other@, context@, work_view(to_visit@), unbound);
        }
        Some(context.bindings())
    }
}

} // verus!
