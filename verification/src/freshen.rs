//! Renaming the variables of a clause to variables that were never
//! issued before.
use vstd::prelude::*;
use crate::ast::{
    atoms_view, lemma_term_view, terms_view, Atom, AtomModel, InnerAtom, InnerRule, InnerTerm,
    Rule, RuleModel, Term, TermModel,
};
use crate::identifiers::{Identifier, IdentifierServer, ServerModel};
use crate::sizes::{atom_size, atoms_size, lemma_atoms_size_step, lemma_sizes_step, rule_size};
use crate::substitution::{
    lemma_subst_agree, lemma_subst_fun, lookup, occurs, size, sizes, subst, subst_all, subst_atom,
    subst_atoms, subst_rule, MAtom, MRule, MTerm, Subst,
};
use crate::interning::{fresh_atoms, fresh_term, issued_between};

verus! {

/// The map that a list of pairs stands for; a later pair wins.
pub open spec fn pairs_map(ps: Seq<(Identifier, Identifier)>) -> Map<Identifier, Identifier>
    decreases ps.len(),
{
    if ps.len() == 0 {
        Map::empty()
    } else {
        pairs_map(ps.drop_last()).insert(ps.last().0, ps.last().1)
    }
}

/// A renaming of variables: for each variable seen so far, the variable
/// that replaces it.
pub struct Renaming {
    pairs: Vec<(Identifier, Identifier)>,
}

impl View for Renaming {
    type V = Map<Identifier, Identifier>;

    closed spec fn view(&self) -> Map<Identifier, Identifier> {
        pairs_map(self.pairs@)
    }
}

impl Renaming {
    /// The renaming that has seen no variable.
    pub fn new() -> (r: Renaming)
        ensures
            r@ == Map::<Identifier, Identifier>::empty(),
    {
        Renaming { pairs: Vec::new() }
    }

    /// The variable that replaces `x`, if `x` was seen.
    pub fn get(&self, x: Identifier) -> (r: Option<Identifier>)
        ensures
            r == (if self@.dom().contains(x) {
                Some(self@[x])
            } else {
                None
            }),
    {
        let mut i: usize = self.pairs.len();
        proof {
            assert(self.pairs@.subrange(0, i as int) =~= self.pairs@);
        }
        while i > 0
            invariant
                i <= self.pairs.len(),
                self@.dom().contains(x) == pairs_map(self.pairs@.subrange(0, i as int)).dom().contains(
                    x,
                ),
                self@.dom().contains(x) ==> self@[x] == pairs_map(
                    self.pairs@.subrange(0, i as int),
                )[x],
            decreases i,
        {
            proof {
                assert(self.pairs@.subrange(0, i as int).drop_last() =~= self.pairs@.subrange(
                    0,
                    i as int - 1,
                ));
            }
            if self.pairs[i - 1].0 == x {
                return Some(self.pairs[i - 1].1);
            }
            i -= 1;
        }
        None
    }

    /// Records that `y` replaces `x`.
    pub fn insert(&mut self, x: Identifier, y: Identifier)
        ensures
            final(self)@ == old(self)@.insert(x, y),
    {
        let ghost before = self.pairs@;
        self.pairs.push((x, y));
        proof {
            assert(self.pairs@.drop_last() =~= before);
        }
    }
}

/// The symbol table together with the renaming of the clause at hand.
pub struct Freshening {
    pub server: ServerModel,
    pub table: Map<Identifier, Identifier>,
}

/// A term with fresh variables: each variable seen for the first time gets
/// a variable that was never issued, and each variable seen before gets
/// the one it got then. Function symbols stay.
pub open spec fn freshen_term(t: MTerm, st: Freshening) -> (MTerm, Freshening)
    decreases t, 0nat,
{
    match t {
        TermModel::Var(x) => if st.table.dom().contains(x) {
            (TermModel::Var(st.table[x]), st)
        } else {
            let id = Identifier::Variable(st.server.variables as usize);
            (
                TermModel::Var(id),
                Freshening { server: st.server.with_variable(), table: st.table.insert(x, id) },
            )
        },
        TermModel::Fun(f, args) => {
            let (images, st1) = freshen_terms(args, st);
            (TermModel::Fun(f, images), st1)
        },
    }
}

/// The terms of a sequence with fresh variables, from left to right.
pub open spec fn freshen_terms(ts: Seq<MTerm>, st: Freshening) -> (Seq<MTerm>, Freshening)
    decreases ts, 1nat,
{
    if ts.len() == 0 {
        (Seq::empty(), st)
    } else {
        let (front, st1) = freshen_terms(ts.drop_last(), st);
        let (last, st2) = freshen_term(ts.last(), st1);
        (front.push(last), st2)
    }
}

/// An atom with fresh variables.
pub open spec fn freshen_atom(a: MAtom, st: Freshening) -> (MAtom, Freshening) {
    let (images, st1) = freshen_terms(a.parameters, st);
    (AtomModel { symbol: a.symbol, parameters: images }, st1)
}

/// The atoms of a sequence with fresh variables, from left to right.
pub open spec fn freshen_atoms(atoms: Seq<MAtom>, st: Freshening) -> (Seq<MAtom>, Freshening)
    decreases atoms.len(),
{
    if atoms.len() == 0 {
        (Seq::empty(), st)
    } else {
        let (front, st1) = freshen_atoms(atoms.drop_last(), st);
        let (last, st2) = freshen_atom(atoms.last(), st1);
        (front.push(last), st2)
    }
}

/// A clause with fresh variables: the conclusion first, then the premises.
pub open spec fn freshen_rule(r: MRule, server: ServerModel) -> (MRule, ServerModel) {
    let st = Freshening { server, table: Map::empty() };
    let (conclusion, st1) = freshen_atom(r.conclusion, st);
    let (premises, st2) = freshen_atoms(r.premises, st1);
    (RuleModel { premises, conclusion }, st2.server)
}

/// Freshening a term issues no more variables than the term has nodes.
pub proof fn lemma_freshen_term_bound(t: MTerm, st: Freshening)
    ensures
        st.server.variables <= freshen_term(t, st).1.server.variables <= st.server.variables + size(
            t,
        ),
    decreases t, 0nat,
{
    match t {
        TermModel::Var(x) => {},
        TermModel::Fun(f, args) => {
            lemma_freshen_terms_bound(args, st);
        },
    }
}

/// Freshening terms issues no more variables than the terms have nodes.
pub proof fn lemma_freshen_terms_bound(ts: Seq<MTerm>, st: Freshening)
    ensures
        st.server.variables <= freshen_terms(ts, st).1.server.variables <= st.server.variables
            + sizes(ts),
        freshen_terms(ts, st).0.len() == ts.len(),
    decreases ts, 1nat,
{
    if ts.len() > 0 {
        lemma_freshen_terms_bound(ts.drop_last(), st);
        lemma_freshen_term_bound(ts.last(), freshen_terms(ts.drop_last(), st).1);
    }
}

/// Freshening atoms issues no more variables than the atoms have nodes.
pub proof fn lemma_freshen_atoms_bound(atoms: Seq<MAtom>, st: Freshening)
    ensures
        st.server.variables <= freshen_atoms(atoms, st).1.server.variables <= st.server.variables
            + atoms_size(atoms),
        freshen_atoms(atoms, st).0.len() == atoms.len(),
    decreases atoms.len(),
{
    if atoms.len() > 0 {
        lemma_freshen_atoms_bound(atoms.drop_last(), st);
        lemma_freshen_terms_bound(
            atoms.last().parameters,
            freshen_atoms(atoms.drop_last(), st).1,
        );
    }
}

/// The state that an executable symbol table and renaming stand for.
pub open spec fn freshening(server: &IdentifierServer, table: &Renaming) -> Freshening {
    Freshening { server: server@, table: table@ }
}

/// The terms of a list with fresh variables, from left to right.
pub fn terms_make_fresh(
    ts: &Vec<InnerTerm>,
    id_server: &mut IdentifierServer,
    bindings: &mut Renaming,
) -> (r: Vec<InnerTerm>)
    requires
        old(id_server)@.variables + sizes(terms_view(ts@)) <= usize::MAX,
    ensures
        (terms_view(r@), freshening(final(id_server), final(bindings))) == freshen_terms(
            terms_view(ts@),
            freshening(old(id_server), old(bindings)),
        ),
    decreases ts,
{
    let ghost all = terms_view(ts@);
    let ghost st0 = freshening(id_server, bindings);
    let mut images: Vec<InnerTerm> = Vec::new();
    let mut i: usize = 0;
    proof {
        assert(all.subrange(0, 0) =~= Seq::<MTerm>::empty());
        assert(terms_view(images@) =~= Seq::<MTerm>::empty());
    }
    while i < ts.len()
        invariant
            i <= ts.len(),
            all == terms_view(ts@),
            st0.server.variables + sizes(all) <= usize::MAX,
            (terms_view(images@), freshening(id_server, bindings)) == freshen_terms(
                all.subrange(0, i as int),
                st0,
            ),
        decreases ts.len() - i,
    {
        proof {
            lemma_sizes_step(all, i as int);
            lemma_freshen_terms_bound(all.subrange(0, i as int), st0);
            assert(all.subrange(0, i as int + 1).drop_last() =~= all.subrange(0, i as int));
            assert(all.subrange(0, i as int + 1).last() == ts[i as int]@);
        }
        let ghost before = terms_view(images@);
        let image = ts[i].make_fresh(id_server, bindings);
        images.push(image);
        proof {
            assert(terms_view(images@) =~= before.push(image@));
        }
        i += 1;
    }
    proof {
        assert(all.subrange(0, i as int) =~= all);
    }
    images
}

impl Term<Identifier> {
    /// This term with fresh variables.
    pub fn make_fresh(&self, id_server: &mut IdentifierServer, bindings: &mut Renaming) -> (r:
        InnerTerm)
        requires
            old(id_server)@.variables + size(self@) <= usize::MAX,
        ensures
            (r@, freshening(final(id_server), final(bindings))) == freshen_term(
                self@,
                freshening(old(id_server), old(bindings)),
            ),
        decreases self,
    {
        proof {
            lemma_term_view(*self);
        }
        match self {
            Term::Variable { symbol } => {
                let identifier = match bindings.get(*symbol) {
                    Some(identifier) => identifier,
                    None => {
                        let identifier = id_server.register_variable();
                        bindings.insert(*symbol, identifier);
                        identifier
                    },
                };
                Term::Variable { symbol: identifier }
            },
            Term::Function { symbol, parameters } => {
                let images = terms_make_fresh(parameters, id_server, bindings);
                let r = Term::Function { symbol: *symbol, parameters: images };
                proof {
                    lemma_term_view(r);
                }
                r
            },
        }
    }
}

impl Atom<Identifier> {
    /// This atom with fresh variables.
    pub fn make_fresh(&self, id_server: &mut IdentifierServer, bindings: &mut Renaming) -> (r:
        InnerAtom)
        requires
            old(id_server)@.variables + atom_size(self@) <= usize::MAX,
        ensures
            (r@, freshening(final(id_server), final(bindings))) == freshen_atom(
                self@,
                freshening(old(id_server), old(bindings)),
            ),
    {
        let images = terms_make_fresh(&self.parameters, id_server, bindings);
        Atom { symbol: self.symbol, parameters: images }
    }
}

impl Rule<Identifier> {
    /// This clause with fresh variables of its own.
    pub fn make_fresh(&self, id_server: &mut IdentifierServer) -> (r: InnerRule)
        requires
            old(id_server)@.variables + rule_size(self@) <= usize::MAX,
        ensures
            (r@, final(id_server)@) == freshen_rule(self@, old(id_server)@),
    {
        let mut bindings = Renaming::new();
        let ghost st = freshening(id_server, &bindings);
        let conclusion = self.conclusion.make_fresh(id_server, &mut bindings);
        let ghost st0 = freshening(id_server, &bindings);
        let ghost all = atoms_view(self.premises@);
        let mut premises: Vec<InnerAtom> = Vec::new();
        let mut i: usize = 0;
        proof {
            lemma_freshen_terms_bound(self.conclusion@.parameters, st);
            assert(all.subrange(0, 0) =~= Seq::<MAtom>::empty());
            assert(atoms_view(premises@) =~= Seq::<MAtom>::empty());
        }
        while i < self.premises.len()
            invariant
                i <= self.premises.len(),
                all == atoms_view(self.premises@),
                st0.server.variables + atoms_size(all) <= usize::MAX,
                (atoms_view(premises@), freshening(id_server, &bindings)) == freshen_atoms(
                    all.subrange(0, i as int),
                    st0,
                ),
            decreases self.premises.len() - i,
        {
            proof {
                lemma_atoms_size_step(all, i as int);
                lemma_freshen_atoms_bound(all.subrange(0, i as int), st0);
                assert(all.subrange(0, i as int + 1).drop_last() =~= all.subrange(0, i as int));
                assert(all.subrange(0, i as int + 1).last() == self.premises[i as int]@);
            }
            let ghost before = atoms_view(premises@);
            let image = self.premises[i].make_fresh(id_server, &mut bindings);
            premises.push(image);
            proof {
                assert(atoms_view(premises@) =~= before.push(image@));
            }
            i += 1;
        }
        proof {
            assert(all.subrange(0, i as int) =~= all);
        }
        Rule { premises, conclusion }
    }
}

/// Every variable that the table gives was issued since `lo`.
pub open spec fn table_fresh(st: Freshening, lo: nat) -> bool {
    forall|x: Identifier| #[trigger]
        st.table.dom().contains(x) ==> issued_between(st.table[x], lo, st.server.variables)
}

/// A term freshened with a table of variables issued since `lo` has only
/// variables issued since `lo`, and leaves such a table.
pub proof fn lemma_freshen_term_fresh(t: MTerm, st: Freshening, lo: nat)
    requires
        table_fresh(st, lo),
        lo <= st.server.variables,
        st.server.variables + size(t) <= usize::MAX,
    ensures
        table_fresh(freshen_term(t, st).1, lo),
        fresh_term(freshen_term(t, st).0, lo, freshen_term(t, st).1.server.variables),
    decreases t, 0nat,
{
    match t {
        TermModel::Var(x) => {},
        TermModel::Fun(f, args) => {
            lemma_freshen_terms_fresh(args, st, lo);
            let images = freshen_terms(args, st).0;
            let hi = freshen_terms(args, st).1.server.variables;
            assert forall|x: Identifier| #[trigger] occurs(x, freshen_term(t, st).0) implies issued_between(
                x,
                lo,
                hi,
            ) by {
                let i = choose|i: int| 0 <= i < images.len() && occurs(x, #[trigger] images[i]);
                assert(fresh_term(images[i], lo, hi));
            }
        },
    }
}

/// Terms freshened with a table of variables issued since `lo` have only
/// variables issued since `lo`, and leave such a table.
pub proof fn lemma_freshen_terms_fresh(ts: Seq<MTerm>, st: Freshening, lo: nat)
    requires
        table_fresh(st, lo),
        lo <= st.server.variables,
        st.server.variables + sizes(ts) <= usize::MAX,
    ensures
        table_fresh(freshen_terms(ts, st).1, lo),
        forall|i: int|
            0 <= i < freshen_terms(ts, st).0.len() ==> fresh_term(
                #[trigger] freshen_terms(ts, st).0[i],
                lo,
                freshen_terms(ts, st).1.server.variables,
            ),
    decreases ts, 1nat,
{
    if ts.len() > 0 {
        let front = freshen_terms(ts.drop_last(), st);
        lemma_freshen_terms_fresh(ts.drop_last(), st, lo);
        lemma_freshen_terms_bound(ts.drop_last(), st);
        lemma_freshen_term_fresh(ts.last(), front.1, lo);
        lemma_freshen_term_bound(ts.last(), front.1);
        let all = freshen_terms(ts, st);
        assert forall|i: int| 0 <= i < all.0.len() implies fresh_term(
            #[trigger] all.0[i],
            lo,
            all.1.server.variables,
        ) by {
            if i < front.0.len() {
                assert(all.0[i] == front.0[i]);
                assert(fresh_term(front.0[i], lo, front.1.server.variables));
            }
        }
    }
}

/// An atom freshened with a table of variables issued since `lo` has only
/// variables issued since `lo`, and leaves such a table.
pub proof fn lemma_freshen_atom_fresh(a: MAtom, st: Freshening, lo: nat)
    requires
        table_fresh(st, lo),
        lo <= st.server.variables,
        st.server.variables + atom_size(a) <= usize::MAX,
    ensures
        table_fresh(freshen_atom(a, st).1, lo),
        fresh_term(freshen_atom(a, st).0.term(), lo, freshen_atom(a, st).1.server.variables),
{
    lemma_freshen_terms_fresh(a.parameters, st, lo);
    let images = freshen_terms(a.parameters, st).0;
    let hi = freshen_terms(a.parameters, st).1.server.variables;
    assert forall|x: Identifier| #[trigger] occurs(x, freshen_atom(a, st).0.term()) implies issued_between(
        x,
        lo,
        hi,
    ) by {
        let i = choose|i: int| 0 <= i < images.len() && occurs(x, #[trigger] images[i]);
        assert(fresh_term(images[i], lo, hi));
    }
}

/// Atoms freshened with a table of variables issued since `lo` have only
/// variables issued since `lo`, and leave such a table.
pub proof fn lemma_freshen_atoms_fresh(atoms: Seq<MAtom>, st: Freshening, lo: nat)
    requires
        table_fresh(st, lo),
        lo <= st.server.variables,
        st.server.variables + atoms_size(atoms) <= usize::MAX,
    ensures
        table_fresh(freshen_atoms(atoms, st).1, lo),
        fresh_atoms(freshen_atoms(atoms, st).0, lo, freshen_atoms(atoms, st).1.server.variables),
    decreases atoms.len(),
{
    if atoms.len() > 0 {
        let front = freshen_atoms(atoms.drop_last(), st);
        lemma_freshen_atoms_fresh(atoms.drop_last(), st, lo);
        lemma_freshen_atoms_bound(atoms.drop_last(), st);
        lemma_freshen_atom_fresh(atoms.last(), front.1, lo);
        lemma_freshen_terms_bound(atoms.last().parameters, front.1);
        let all = freshen_atoms(atoms, st);
        assert forall|i: int| 0 <= i < all.0.len() implies fresh_term(
            (#[trigger] all.0[i]).term(),
            lo,
            all.1.server.variables,
        ) by {
            if i < front.0.len() {
                assert(all.0[i] == front.0[i]);
                assert(fresh_term(front.0[i].term(), lo, front.1.server.variables));
            }
        }
    }
}

/// A clause is freshened with variables of its own: each of its variables
/// is issued while it is freshened, so that it shares no variable with any
/// clause that was there before.
pub proof fn lemma_freshen_rule_fresh(r: MRule, server: ServerModel)
    requires
        server.variables + rule_size(r) <= usize::MAX,
    ensures
        server.variables <= freshen_rule(r, server).1.variables,
        fresh_term(
            freshen_rule(r, server).0.conclusion.term(),
            server.variables,
            freshen_rule(r, server).1.variables,
        ),
        fresh_atoms(
            freshen_rule(r, server).0.premises,
            server.variables,
            freshen_rule(r, server).1.variables,
        ),
{
    let lo = server.variables;
    let st = Freshening { server, table: Map::empty() };
    lemma_freshen_atom_fresh(r.conclusion, st, lo);
    lemma_freshen_terms_bound(r.conclusion.parameters, st);
    let st1 = freshen_atom(r.conclusion, st).1;
    lemma_freshen_atoms_fresh(r.premises, st1, lo);
    lemma_freshen_atoms_bound(r.premises, st1);
}

/// The substitution that replaces each variable of the table by the
/// variable that the table gives for it.
pub open spec fn renaming(table: Map<Identifier, Identifier>) -> Subst {
    Map::new(
        |x: Identifier| table.dom().contains(x),
        |x: Identifier| TermModel::<Identifier>::Var(table[x]),
    )
}

/// The table `b` holds what `a` holds.
pub open spec fn extends_table(b: Map<Identifier, Identifier>, a: Map<Identifier, Identifier>) -> bool {
    forall|x: Identifier| #[trigger] a.dom().contains(x) ==> b.dom().contains(x) && b[x] == a[x]
}

/// No two variables of the table are given the same variable.
pub open spec fn injective(table: Map<Identifier, Identifier>) -> bool {
    forall|x: Identifier, y: Identifier|
        #![trigger table[x], table[y]]
        table.dom().contains(x) && table.dom().contains(y) && table[x] == table[y] ==> x == y
}

/// Freshening a term is a renaming: the table only grows, it then holds
/// every variable of the term, it stays injective, and the term that comes
/// out is the term with each variable replaced by what the table gives.
pub proof fn lemma_freshen_term_renames(t: MTerm, st: Freshening, lo: nat)
    requires
        table_fresh(st, lo),
        injective(st.table),
        lo <= st.server.variables,
        st.server.variables + size(t) <= usize::MAX,
    ensures
        extends_table(freshen_term(t, st).1.table, st.table),
        injective(freshen_term(t, st).1.table),
        forall|x: Identifier| occurs(x, t) ==> freshen_term(t, st).1.table.dom().contains(x),
        freshen_term(t, st).0 == subst(t, renaming(freshen_term(t, st).1.table)),
    decreases t, 0nat,
{
    match t {
        TermModel::Var(x) => {
            let end = freshen_term(t, st).1.table;
            assert forall|a: Identifier, b: Identifier|
                #![trigger end[a], end[b]]
                end.dom().contains(a) && end.dom().contains(b) && end[a] == end[b] implies a
                == b by {
                if !st.table.dom().contains(x) {
                    if a != x {
                        assert(st.table.dom().contains(a));
                    }
                    if b != x {
                        assert(st.table.dom().contains(b));
                    }
                }
            }
        },
        TermModel::Fun(f, args) => {
            lemma_freshen_terms_renames(args, st, lo);
            let end = freshen_terms(args, st).1.table;
            lemma_subst_fun(f, args, renaming(end));
            assert(freshen_terms(args, st).0 =~= subst_all(args, renaming(end)));
            assert forall|x: Identifier| occurs(x, t) implies end.dom().contains(x) by {
                let i = choose|i: int| 0 <= i < args.len() && occurs(x, #[trigger] args[i]);
            }
        },
    }
}

/// Freshening terms is a renaming: the table only grows, it then holds
/// every variable of the terms, it stays injective, and each term that
/// comes out is the term with each variable replaced by what the table
/// gives.
pub proof fn lemma_freshen_terms_renames(ts: Seq<MTerm>, st: Freshening, lo: nat)
    requires
        table_fresh(st, lo),
        injective(st.table),
        lo <= st.server.variables,
        st.server.variables + sizes(ts) <= usize::MAX,
    ensures
        extends_table(freshen_terms(ts, st).1.table, st.table),
        injective(freshen_terms(ts, st).1.table),
        freshen_terms(ts, st).0.len() == ts.len(),
        forall|i: int, x: Identifier|
            0 <= i < ts.len() && occurs(x, #[trigger] ts[i]) ==> #[trigger] freshen_terms(
                ts,
                st,
            ).1.table.dom().contains(x),
        forall|i: int|
            0 <= i < ts.len() ==> #[trigger] freshen_terms(ts, st).0[i] == subst(
                ts[i],
                renaming(freshen_terms(ts, st).1.table),
            ),
    decreases ts, 1nat,
{
    if ts.len() > 0 {
        let front = freshen_terms(ts.drop_last(), st);
        lemma_freshen_terms_renames(ts.drop_last(), st, lo);
        lemma_freshen_terms_fresh(ts.drop_last(), st, lo);
        lemma_freshen_terms_bound(ts.drop_last(), st);
        lemma_freshen_term_renames(ts.last(), front.1, lo);
        let all = freshen_terms(ts, st);
        let mid = front.1.table;
        let end = all.1.table;
        assert forall|i: int, x: Identifier|
            0 <= i < ts.len() && occurs(x, #[trigger] ts[i]) implies #[trigger] end.dom().contains(
            x,
        ) by {
            if i < ts.len() - 1 {
                assert(ts.drop_last()[i] == ts[i]);
                assert(mid.dom().contains(x));
            }
        }
        assert forall|i: int| 0 <= i < ts.len() implies #[trigger] all.0[i] == subst(
            ts[i],
            renaming(end),
        ) by {
            if i < ts.len() - 1 {
                assert(all.0[i] == front.0[i]);
                assert(ts.drop_last()[i] == ts[i]);
                assert forall|x: Identifier| occurs(x, ts[i]) implies lookup(renaming(mid), x)
                    == lookup(renaming(end), x) by {
                    assert(mid.dom().contains(x));
                }
                lemma_subst_agree(ts[i], renaming(mid), renaming(end));
            }
        }
    }
}

/// Freshening an atom is a renaming.
pub proof fn lemma_freshen_atom_renames(a: MAtom, st: Freshening, lo: nat)
    requires
        table_fresh(st, lo),
        injective(st.table),
        lo <= st.server.variables,
        st.server.variables + atom_size(a) <= usize::MAX,
    ensures
        extends_table(freshen_atom(a, st).1.table, st.table),
        injective(freshen_atom(a, st).1.table),
        forall|x: Identifier|
            occurs(x, a.term()) ==> freshen_atom(a, st).1.table.dom().contains(x),
        freshen_atom(a, st).0 == subst_atom(a, renaming(freshen_atom(a, st).1.table)),
{
    lemma_freshen_terms_renames(a.parameters, st, lo);
    let end = freshen_terms(a.parameters, st).1.table;
    assert(freshen_terms(a.parameters, st).0 =~= subst_all(a.parameters, renaming(end)));
    assert forall|x: Identifier| occurs(x, a.term()) implies end.dom().contains(x) by {
        let i = choose|i: int|
            0 <= i < a.parameters.len() && occurs(x, #[trigger] a.parameters[i]);
    }
}

/// Two renamings that agree on the variables of an atom make the same of
/// it.
pub proof fn lemma_renaming_agree(a: MAtom, mid: Map<Identifier, Identifier>, end: Map<Identifier, Identifier>)
    requires
        extends_table(end, mid),
        forall|x: Identifier| occurs(x, a.term()) ==> mid.dom().contains(x),
    ensures
        subst_atom(a, renaming(mid)) == subst_atom(a, renaming(end)),
{
    assert forall|i: int| 0 <= i < a.parameters.len() implies subst(
        a.parameters[i],
        renaming(mid),
    ) == subst(a.parameters[i], renaming(end)) by {
        assert forall|x: Identifier| occurs(x, a.parameters[i]) implies lookup(renaming(mid), x)
            == lookup(renaming(end), x) by {
            assert(occurs(x, a.term()->Fun_1[i]));
            assert(occurs(x, a.term()));
            assert(mid.dom().contains(x));
        }
        lemma_subst_agree(a.parameters[i], renaming(mid), renaming(end));
    }
    assert(subst_all(a.parameters, renaming(mid)) =~= subst_all(a.parameters, renaming(end)));
}

/// Freshening atoms is a renaming.
pub proof fn lemma_freshen_atoms_renames(atoms: Seq<MAtom>, st: Freshening, lo: nat)
    requires
        table_fresh(st, lo),
        injective(st.table),
        lo <= st.server.variables,
        st.server.variables + atoms_size(atoms) <= usize::MAX,
    ensures
        extends_table(freshen_atoms(atoms, st).1.table, st.table),
        injective(freshen_atoms(atoms, st).1.table),
        freshen_atoms(atoms, st).0 == subst_atoms(
            atoms,
            renaming(freshen_atoms(atoms, st).1.table),
        ),
    decreases atoms.len(),
{
    if atoms.len() > 0 {
        let front = freshen_atoms(atoms.drop_last(), st);
        lemma_freshen_atoms_renames(atoms.drop_last(), st, lo);
        lemma_freshen_atoms_fresh(atoms.drop_last(), st, lo);
        lemma_freshen_atoms_bound(atoms.drop_last(), st);
        lemma_freshen_atom_renames(atoms.last(), front.1, lo);
        let all = freshen_atoms(atoms, st);
        let mid = front.1.table;
        let end = all.1.table;
        assert forall|i: int| 0 <= i < atoms.len() implies all.0[i] == subst_atom(
            atoms[i],
            renaming(end),
        ) by {
            if i < atoms.len() - 1 {
                assert(all.0[i] == front.0[i]);
                assert(front.0[i] == subst_atom(atoms.drop_last()[i], renaming(mid)));
                lemma_atoms_covered(atoms.drop_last(), st, lo, i);
                lemma_renaming_agree(atoms[i], mid, end);
            }
        }
        assert(all.0 =~= subst_atoms(atoms, renaming(end)));
    } else {
        assert(freshen_atoms(atoms, st).0 =~= subst_atoms(atoms, renaming(st.table)));
    }
}

/// After atoms were freshened, the table holds every variable of each.
pub proof fn lemma_atoms_covered(atoms: Seq<MAtom>, st: Freshening, lo: nat, i: int)
    requires
        table_fresh(st, lo),
        injective(st.table),
        lo <= st.server.variables,
        st.server.variables + atoms_size(atoms) <= usize::MAX,
        0 <= i < atoms.len(),
    ensures
        forall|x: Identifier|
            occurs(x, atoms[i].term()) ==> freshen_atoms(atoms, st).1.table.dom().contains(x),
    decreases atoms.len(),
{
    let front = freshen_atoms(atoms.drop_last(), st);
    lemma_freshen_atoms_renames(atoms.drop_last(), st, lo);
    lemma_freshen_atoms_fresh(atoms.drop_last(), st, lo);
    lemma_freshen_atoms_bound(atoms.drop_last(), st);
    lemma_freshen_atom_renames(atoms.last(), front.1, lo);
    if i < atoms.len() - 1 {
        lemma_atoms_covered(atoms.drop_last(), st, lo, i);
        assert(atoms.drop_last()[i] == atoms[i]);
        assert forall|x: Identifier| occurs(x, atoms[i].term()) implies freshen_atoms(
            atoms,
            st,
        ).1.table.dom().contains(x) by {
            assert(front.1.table.dom().contains(x));
        }
    }
}

/// The table that freshening a clause ends with.
pub open spec fn freshen_rule_table(r: MRule, server: ServerModel) -> Map<Identifier, Identifier> {
    let st = Freshening { server, table: Map::empty() };
    freshen_atoms(r.premises, freshen_atom(r.conclusion, st).1).1.table
}

/// Freshening a clause renames its variables: what comes out is the
/// clause with each variable replaced by the variable that an injective
/// table gives for it. Function symbols stay, and each variable is replaced
/// alike wherever it stands.
pub proof fn lemma_freshen_rule_renames(r: MRule, server: ServerModel)
    requires
        server.variables + rule_size(r) <= usize::MAX,
    ensures
        injective(freshen_rule_table(r, server)),
        freshen_rule(r, server).0 == subst_rule(r, renaming(freshen_rule_table(r, server))),
{
    let lo = server.variables;
    let st = Freshening { server, table: Map::empty() };
    lemma_freshen_atom_renames(r.conclusion, st, lo);
    lemma_freshen_atom_fresh(r.conclusion, st, lo);
    lemma_freshen_terms_bound(r.conclusion.parameters, st);
    let st1 = freshen_atom(r.conclusion, st).1;
    lemma_freshen_atoms_renames(r.premises, st1, lo);
    lemma_renaming_agree(r.conclusion, st1.table, freshen_rule_table(r, server));
}

} // verus!
