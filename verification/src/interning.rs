//! From surface syntax to the internal representation: names become
//! identifiers, and the variables of each clause become fresh ones.
use vstd::prelude::*;
use crate::ast::{
    atoms_view, lemma_term_view, terms_view, Atom, AtomModel, InnerAtom, InnerRule, InnerTerm,
    Rule, RuleModel, SAtom, SRule, STerm, Term, TermModel,
};
use crate::identifiers::{
    interned, table_get, table_insert, table_new, Identifier, IdentifierServer, NameTable,
    ServerModel,
};
use crate::sizes::{atom_size, atoms_size, lemma_atoms_size_step, lemma_sizes_step, rule_size};
use crate::substitution::{occurs, size, sizes, MAtom, MRule, MTerm};

verus! {

/// The symbol table together with the variables of the clause at hand.
pub struct Interning {
    pub server: ServerModel,
    pub scope: Map<Seq<char>, Identifier>,
}

/// A surface term interned: each function symbol is registered, each
/// variable seen for the first time in the clause gets a fresh identifier,
/// and each variable seen before gets the identifier it got then.
pub open spec fn intern_term(t: STerm, st: Interning) -> (MTerm, Interning)
    decreases t, 0nat,
{
    match t {
        TermModel::Var(x) => if st.scope.dom().contains(x) {
            (TermModel::Var(st.scope[x]), st)
        } else {
            let id = Identifier::Variable(st.server.variables as usize);
            (
                TermModel::Var(id),
                Interning { server: st.server.with_variable(), scope: st.scope.insert(x, id) },
            )
        },
        TermModel::Fun(f, args) => {
            let head = st.server.function_id(f);
            let st1 = Interning { server: st.server.with_function(f), scope: st.scope };
            let (images, st2) = intern_terms(args, st1);
            (TermModel::Fun(head, images), st2)
        },
    }
}

/// The terms of a sequence interned from left to right.
pub open spec fn intern_terms(ts: Seq<STerm>, st: Interning) -> (Seq<MTerm>, Interning)
    decreases ts, 1nat,
{
    if ts.len() == 0 {
        (Seq::empty(), st)
    } else {
        let (front, st1) = intern_terms(ts.drop_last(), st);
        let (last, st2) = intern_term(ts.last(), st1);
        (front.push(last), st2)
    }
}

/// A surface atom interned: its symbol first, then its arguments.
pub open spec fn intern_atom(a: SAtom, st: Interning) -> (MAtom, Interning) {
    let head = st.server.function_id(a.symbol);
    let st1 = Interning { server: st.server.with_function(a.symbol), scope: st.scope };
    let (images, st2) = intern_terms(a.parameters, st1);
    (AtomModel { symbol: head, parameters: images }, st2)
}

/// The atoms of a sequence interned from left to right.
pub open spec fn intern_atoms(atoms: Seq<SAtom>, st: Interning) -> (Seq<MAtom>, Interning)
    decreases atoms.len(),
{
    if atoms.len() == 0 {
        (Seq::empty(), st)
    } else {
        let (front, st1) = intern_atoms(atoms.drop_last(), st);
        let (last, st2) = intern_atom(atoms.last(), st1);
        (front.push(last), st2)
    }
}

/// A surface clause interned with variables of its own: the conclusion
/// first, then the premises.
pub open spec fn intern_rule(r: SRule, server: ServerModel) -> (MRule, ServerModel) {
    let st = Interning { server, scope: Map::empty() };
    let (conclusion, st1) = intern_atom(r.conclusion, st);
    let (premises, st2) = intern_atoms(r.premises, st1);
    (RuleModel { premises, conclusion }, st2.server)
}

/// Interning a term issues no more variables than the term has nodes.
pub proof fn lemma_intern_term_bound(t: STerm, st: Interning)
    ensures
        st.server.variables <= intern_term(t, st).1.server.variables <= st.server.variables + size(t),
    decreases t, 0nat,
{
    match t {
        TermModel::Var(x) => {},
        TermModel::Fun(f, args) => {
            let st1 = Interning { server: st.server.with_function(f), scope: st.scope };
            lemma_intern_terms_bound(args, st1);
        },
    }
}

/// Interning terms issues no more variables than the terms have nodes.
pub proof fn lemma_intern_terms_bound(ts: Seq<STerm>, st: Interning)
    ensures
        st.server.variables <= intern_terms(ts, st).1.server.variables <= st.server.variables
            + sizes(ts),
        intern_terms(ts, st).0.len() == ts.len(),
    decreases ts, 1nat,
{
    if ts.len() > 0 {
        lemma_intern_terms_bound(ts.drop_last(), st);
        lemma_intern_term_bound(ts.last(), intern_terms(ts.drop_last(), st).1);
    }
}

/// Interning an atom issues no more variables than the atom has nodes.
pub proof fn lemma_intern_atom_bound(a: SAtom, st: Interning)
    ensures
        st.server.variables <= intern_atom(a, st).1.server.variables <= st.server.variables
            + atom_size(a),
{
    let st1 = Interning { server: st.server.with_function(a.symbol), scope: st.scope };
    lemma_intern_terms_bound(a.parameters, st1);
}

/// Interning atoms issues no more variables than the atoms have nodes.
pub proof fn lemma_intern_atoms_bound(atoms: Seq<SAtom>, st: Interning)
    ensures
        st.server.variables <= intern_atoms(atoms, st).1.server.variables <= st.server.variables
            + atoms_size(atoms),
        intern_atoms(atoms, st).0.len() == atoms.len(),
    decreases atoms.len(),
{
    if atoms.len() > 0 {
        lemma_intern_atoms_bound(atoms.drop_last(), st);
        lemma_intern_atom_bound(atoms.last(), intern_atoms(atoms.drop_last(), st).1);
    }
}

/// The state that an executable symbol table and scope stand for.
pub open spec fn interning(server: &IdentifierServer, scope: &NameTable) -> Interning {
    Interning { server: server@, scope: interned(*scope) }
}

/// The terms of a list interned from left to right.
pub fn terms_to_inner(
    ts: &Vec<Term<String>>,
    id_server: &mut IdentifierServer,
    bindings: &mut NameTable,
) -> (r: Vec<InnerTerm>)
    requires
        old(id_server)@.variables + sizes(terms_view(ts@)) <= usize::MAX,
    ensures
        (terms_view(r@), interning(final(id_server), final(bindings))) == intern_terms(
            terms_view(ts@),
            interning(old(id_server), old(bindings)),
        ),
    decreases ts,
{
    let ghost all = terms_view(ts@);
    let ghost st0 = interning(id_server, bindings);
    let mut images: Vec<InnerTerm> = Vec::new();
    let mut i: usize = 0;
    proof {
        assert(all.subrange(0, 0) =~= Seq::<STerm>::empty());
        assert(terms_view(images@) =~= Seq::<MTerm>::empty());
    }
    while i < ts.len()
        invariant
            i <= ts.len(),
            all == terms_view(ts@),
            st0.server.variables + sizes(all) <= usize::MAX,
            (terms_view(images@), interning(id_server, bindings)) == intern_terms(
                all.subrange(0, i as int),
                st0,
            ),
        decreases ts.len() - i,
    {
        proof {
            lemma_sizes_step(all, i as int);
            lemma_intern_terms_bound(all.subrange(0, i as int), st0);
            assert(all.subrange(0, i as int + 1).drop_last() =~= all.subrange(0, i as int));
            assert(all.subrange(0, i as int + 1).last() == ts[i as int]@);
        }
        let ghost before = terms_view(images@);
        let image = ts[i].to_inner(id_server, bindings);
        images.push(image);
        proof {
            assert(terms_view(images@) =~= before.push(image@));
        }
        i += 1;
    }
    proof {
        assert(all.subrange(0, i as int) =~= all);
    }
    images
}

impl Term<String> {
    /// This term in the internal representation.
    pub fn to_inner(&self, id_server: &mut IdentifierServer, bindings: &mut NameTable) -> (r:
        InnerTerm)
        requires
            old(id_server)@.variables + size(self@) <= usize::MAX,
        ensures
            (r@, interning(final(id_server), final(bindings))) == intern_term(
                self@,
                interning(old(id_server), old(bindings)),
            ),
        decreases self,
    {
        proof {
            lemma_term_view(*self);
        }
        match self {
            Term::Variable { symbol } => {
                let identifier = match table_get(bindings, symbol.as_str()) {
                    Some(identifier) => identifier,
                    None => {
                        let identifier = id_server.register_variable();
                        table_insert(bindings, symbol.clone(), identifier);
                        identifier
                    },
                };
                Term::Variable { symbol: identifier }
            },
            Term::Function { symbol, parameters } => {
                let head = id_server.register_function(symbol.as_str());
                let images = terms_to_inner(parameters, id_server, bindings);
                let r = Term::Function { symbol: head, parameters: images };
                proof {
                    lemma_term_view(r);
                }
                r
            },
        }
    }
}

impl Atom<String> {
    /// This atom in the internal representation.
    pub fn to_inner(&self, id_server: &mut IdentifierServer, bindings: &mut NameTable) -> (r:
        InnerAtom)
        requires
            old(id_server)@.variables + atom_size(self@) <= usize::MAX,
        ensures
            (r@, interning(final(id_server), final(bindings))) == intern_atom(
                self@,
                interning(old(id_server), old(bindings)),
            ),
    {
        let head = id_server.register_function(self.symbol.as_str());
        let images = terms_to_inner(&self.parameters, id_server, bindings);
        Atom { symbol: head, parameters: images }
    }
}

impl Rule<String> {
    /// This clause in the internal representation, with variables that no
    /// other clause has.
    pub fn to_inner(&self, id_server: &mut IdentifierServer) -> (r: InnerRule)
        requires
            old(id_server)@.variables + rule_size(self@) <= usize::MAX,
        ensures
            (r@, final(id_server)@) == intern_rule(self@, old(id_server)@),
    {
        let mut bindings = table_new();
        let ghost st = interning(id_server, &bindings);
        let conclusion = self.conclusion.to_inner(id_server, &mut bindings);
        let ghost st0 = interning(id_server, &bindings);
        let ghost all = atoms_view(self.premises@);
        let mut premises: Vec<InnerAtom> = Vec::new();
        let mut i: usize = 0;
        proof {
            lemma_intern_atom_bound(self.conclusion@, st);
            assert(all.subrange(0, 0) =~= Seq::<SAtom>::empty());
            assert(atoms_view(premises@) =~= Seq::<MAtom>::empty());
        }
        while i < self.premises.len()
            invariant
                i <= self.premises.len(),
                all == atoms_view(self.premises@),
                st0.server.variables + atoms_size(all) <= usize::MAX,
                (atoms_view(premises@), interning(id_server, &bindings)) == intern_atoms(
                    all.subrange(0, i as int),
                    st0,
                ),
            decreases self.premises.len() - i,
        {
            proof {
                lemma_atoms_size_step(all, i as int);
                lemma_intern_atoms_bound(all.subrange(0, i as int), st0);
                assert(all.subrange(0, i as int + 1).drop_last() =~= all.subrange(0, i as int));
                assert(all.subrange(0, i as int + 1).last() == self.premises[i as int]@);
            }
            let ghost before = atoms_view(premises@);
            let image = self.premises[i].to_inner(id_server, &mut bindings);
            premises.push(image);
            proof {
                assert(atoms_view(premises@) =~= before.push(image@));
            }
            i += 1;
        }
        proof {
            assert(all.subrange(0, i as int) =~= all);
        }
        Rule { premises, conclusion }
    }
}

/// The identifier is a variable whose number is at least `lo` and below
/// `hi`.
pub open spec fn issued_between(x: Identifier, lo: nat, hi: nat) -> bool {
    x is Variable && lo <= x->Variable_0 < hi
}

/// Every variable of the term was issued between `lo` and `hi`.
pub open spec fn fresh_term(t: MTerm, lo: nat, hi: nat) -> bool {
    forall|x: Identifier| #[trigger] occurs(x, t) ==> issued_between(x, lo, hi)
}

/// Every variable of the atoms was issued between `lo` and `hi`.
pub open spec fn fresh_atoms(atoms: Seq<MAtom>, lo: nat, hi: nat) -> bool {
    forall|i: int| 0 <= i < atoms.len() ==> fresh_term((#[trigger] atoms[i]).term(), lo, hi)
}

/// Every variable of the scope was issued since `lo`.
pub open spec fn scope_fresh(st: Interning, lo: nat) -> bool {
    forall|name: Seq<char>| #[trigger]
        st.scope.dom().contains(name) ==> issued_between(st.scope[name], lo, st.server.variables)
}

/// A term interned in a scope of variables issued since `lo` has only
/// variables issued since `lo`, and leaves such a scope.
pub proof fn lemma_intern_term_fresh(t: STerm, st: Interning, lo: nat)
    requires
        scope_fresh(st, lo),
        lo <= st.server.variables,
        st.server.variables + size(t) <= usize::MAX,
    ensures
        scope_fresh(intern_term(t, st).1, lo),
        fresh_term(intern_term(t, st).0, lo, intern_term(t, st).1.server.variables),
    decreases t, 0nat,
{
    match t {
        TermModel::Var(x) => {},
        TermModel::Fun(f, args) => {
            let st1 = Interning { server: st.server.with_function(f), scope: st.scope };
            lemma_intern_terms_fresh(args, st1, lo);
            let images = intern_terms(args, st1).0;
            let hi = intern_terms(args, st1).1.server.variables;
            assert forall|x: Identifier| #[trigger] occurs(x, intern_term(t, st).0) implies issued_between(
                x,
                lo,
                hi,
            ) by {
                let i = choose|i: int| 0 <= i < images.len() && occurs(x, #[trigger] images[i]);
                assert(fresh_term(images[i], lo, hi));
            }
        },
    }
}

/// Terms interned in a scope of variables issued since `lo` have only
/// variables issued since `lo`, and leave such a scope.
pub proof fn lemma_intern_terms_fresh(ts: Seq<STerm>, st: Interning, lo: nat)
    requires
        scope_fresh(st, lo),
        lo <= st.server.variables,
        st.server.variables + sizes(ts) <= usize::MAX,
    ensures
        scope_fresh(intern_terms(ts, st).1, lo),
        forall|i: int|
            0 <= i < intern_terms(ts, st).0.len() ==> fresh_term(
                #[trigger] intern_terms(ts, st).0[i],
                lo,
                intern_terms(ts, st).1.server.variables,
            ),
    decreases ts, 1nat,
{
    if ts.len() > 0 {
        let front = intern_terms(ts.drop_last(), st);
        lemma_intern_terms_fresh(ts.drop_last(), st, lo);
        lemma_intern_terms_bound(ts.drop_last(), st);
        lemma_intern_term_fresh(ts.last(), front.1, lo);
        lemma_intern_term_bound(ts.last(), front.1);
        let all = intern_terms(ts, st);
        assert forall|i: int| 0 <= i < all.0.len() implies fresh_term(
            #[trigger] all.0[i],
            lo,
            all.1.server.variables,
        ) by {
            if i < front.0.len() {
                assert(all.0[i] == front.0[i]);
                assert(fresh_term(front.0[i], lo, front.1.server.variables));
            }
        }
    }
}

/// An atom interned in a scope of variables issued since `lo` has only
/// variables issued since `lo`, and leaves such a scope.
pub proof fn lemma_intern_atom_fresh(a: SAtom, st: Interning, lo: nat)
    requires
        scope_fresh(st, lo),
        lo <= st.server.variables,
        st.server.variables + atom_size(a) <= usize::MAX,
    ensures
        scope_fresh(intern_atom(a, st).1, lo),
        fresh_term(intern_atom(a, st).0.term(), lo, intern_atom(a, st).1.server.variables),
{
    let st1 = Interning { server: st.server.with_function(a.symbol), scope: st.scope };
    lemma_intern_terms_fresh(a.parameters, st1, lo);
    let images = intern_terms(a.parameters, st1).0;
    let hi = intern_terms(a.parameters, st1).1.server.variables;
    assert forall|x: Identifier| #[trigger] occurs(x, intern_atom(a, st).0.term()) implies issued_between(
        x,
        lo,
        hi,
    ) by {
        let i = choose|i: int| 0 <= i < images.len() && occurs(x, #[trigger] images[i]);
        assert(fresh_term(images[i], lo, hi));
    }
}

/// Atoms interned in a scope of variables issued since `lo` have only
/// variables issued since `lo`, and leave such a scope.
pub proof fn lemma_intern_atoms_fresh(atoms: Seq<SAtom>, st: Interning, lo: nat)
    requires
        scope_fresh(st, lo),
        lo <= st.server.variables,
        st.server.variables + atoms_size(atoms) <= usize::MAX,
    ensures
        scope_fresh(intern_atoms(atoms, st).1, lo),
        fresh_atoms(intern_atoms(atoms, st).0, lo, intern_atoms(atoms, st).1.server.variables),
    decreases atoms.len(),
{
    if atoms.len() > 0 {
        let front = intern_atoms(atoms.drop_last(), st);
        lemma_intern_atoms_fresh(atoms.drop_last(), st, lo);
        lemma_intern_atoms_bound(atoms.drop_last(), st);
        lemma_intern_atom_fresh(atoms.last(), front.1, lo);
        lemma_intern_atom_bound(atoms.last(), front.1);
        let all = intern_atoms(atoms, st);
        assert forall|i: int| 0 <= i < all.0.len() implies fresh_term(
            (#[trigger] all.0[i]).term(),
            lo,
            all.1.server.variables,
        ) by {
            if i < front.0.len() {
                assert(all.0[i] == front.0[i]);
                assert(fresh_term(front.0[i].term(), lo, front.1.server.variables));
            }
        }
    }
}

/// A clause is interned with variables of its own: each of its variables
/// is issued while it is interned, so that it shares no variable with any
/// clause that was interned before.
pub proof fn lemma_intern_rule_fresh(r: SRule, server: ServerModel)
    requires
        server.variables + rule_size(r) <= usize::MAX,
    ensures
        server.variables <= intern_rule(r, server).1.variables,
        fresh_term(
            intern_rule(r, server).0.conclusion.term(),
            server.variables,
            intern_rule(r, server).1.variables,
        ),
        fresh_atoms(
            intern_rule(r, server).0.premises,
            server.variables,
            intern_rule(r, server).1.variables,
        ),
{
    let lo = server.variables;
    let st = Interning { server, scope: Map::empty() };
    lemma_intern_atom_fresh(r.conclusion, st, lo);
    lemma_intern_atom_bound(r.conclusion, st);
    let st1 = intern_atom(r.conclusion, st).1;
    lemma_intern_atoms_fresh(r.premises, st1, lo);
    lemma_intern_atoms_bound(r.premises, st1);
}

} // verus!
