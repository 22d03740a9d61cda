//! Terms, atoms and clauses, with their mathematical models.
use vstd::prelude::*;
use crate::identifiers::Identifier;
use crate::substitution::{occurs, size, sizes};

verus! {

/// The mathematical model of a term: a finite tree whose leaves are variables
/// and whose inner nodes are function applications.
pub enum TermModel<S> {
    Var(S),
    Fun(S, Seq<TermModel<S>>),
}

/// The mathematical model of an atom: a symbol applied to terms.
pub struct AtomModel<S> {
    pub symbol: S,
    pub parameters: Seq<TermModel<S>>,
}

/// The mathematical model of a clause `premises => conclusion`.
pub struct RuleModel<S> {
    pub premises: Seq<AtomModel<S>>,
    pub conclusion: AtomModel<S>,
}

/// The model of a term of the surface language.
pub type STerm = TermModel<Seq<char>>;
/// The model of an atom of the surface language.
pub type SAtom = AtomModel<Seq<char>>;
/// The model of a clause of the surface language.
pub type SRule = RuleModel<Seq<char>>;

/// A term of the surface or of the internal language.
#[derive(Debug, Hash, Eq, PartialEq)]
pub enum Term<T> {
    Function { symbol: T, parameters: Vec<Term<T>> },
    Variable { symbol: T },
}

pub type InnerTerm = Term<Identifier>;

/// An atom: a symbol applied to terms, at the top level of a clause.
#[derive(Debug, Hash, Eq, PartialEq)]
pub struct Atom<T> {
    pub symbol: T,
    pub parameters: Vec<Term<T>>,
}

pub type InnerAtom = Atom<Identifier>;

/// A clause: the premises and the atom that they conclude. A clause with no
/// premises is a fact.
#[derive(Debug, Hash, Eq, PartialEq)]
pub struct Rule<T> {
    pub premises: Vec<Atom<T>>,
    pub conclusion: Atom<T>,
}

pub type InnerRule = Rule<Identifier>;

/// The model of a term, by structural recursion.
pub open spec fn term_view<T: View>(t: Term<T>) -> TermModel<T::V>
    decreases t,
{
    match t {
        Term::Variable { symbol } => TermModel::Var(symbol@),
        Term::Function { symbol, parameters } => TermModel::Fun(
            symbol@,
            Seq::new(
                parameters.len() as nat,
                |i: int|
                    if 0 <= i < parameters.len() {
                        term_view(parameters[i])
                    } else {
                        arbitrary()
                    },
            ),
        ),
    }
}

impl<T: View> View for Term<T> {
    type V = TermModel<T::V>;

    open spec fn view(&self) -> TermModel<T::V> {
        term_view(*self)
    }
}

/// The models of a sequence of terms.
pub open spec fn terms_view<T: View>(ts: Seq<Term<T>>) -> Seq<TermModel<T::V>> {
    Seq::new(ts.len(), |i: int| term_view(ts[i]))
}

impl<T: View> View for Atom<T> {
    type V = AtomModel<T::V>;

    open spec fn view(&self) -> AtomModel<T::V> {
        AtomModel { symbol: self.symbol@, parameters: terms_view(self.parameters@) }
    }
}

/// The models of a sequence of atoms.
pub open spec fn atoms_view<T: View>(atoms: Seq<Atom<T>>) -> Seq<AtomModel<T::V>> {
    Seq::new(atoms.len(), |i: int| atoms[i]@)
}

impl<T: View> View for Rule<T> {
    type V = RuleModel<T::V>;

    open spec fn view(&self) -> RuleModel<T::V> {
        RuleModel { premises: atoms_view(self.premises@), conclusion: self.conclusion@ }
    }
}

/// The models of a sequence of surface clauses.
pub open spec fn rules_surface_view(rules: Seq<Rule<String>>) -> Seq<RuleModel<Seq<char>>> {
    Seq::new(rules.len(), |i: int| rules[i]@)
}

impl<S> AtomModel<S> {
    /// The atom seen as a term.
    pub open spec fn term(self) -> TermModel<S> {
        TermModel::Fun(self.symbol, self.parameters)
    }
}

/// Unfolds the model of a term by one level.
pub proof fn lemma_term_view<T: View>(t: Term<T>)
    ensures
        match t {
            Term::Variable { symbol } => t@ == TermModel::Var(symbol@),
            Term::Function { symbol, parameters } => {
                &&& t@ is Fun
                &&& t@->Fun_0 == symbol@
                &&& t@->Fun_1 == terms_view(parameters@)
                &&& t@->Fun_1.len() == parameters.len()
                &&& forall|i: int| 0 <= i < parameters.len() ==> t@->Fun_1[i] == (#[trigger] parameters[i])@
            },
        },
{
    if let Term::Function { symbol, parameters } = t {
        assert(t@->Fun_1 =~= terms_view(parameters@));
    }
}

impl<T> Term<T> {
    pub fn symbol(&self) -> (s: &T)
        ensures
            *s == match *self {
                Term::Variable { symbol } => symbol,
                Term::Function { symbol, .. } => symbol,
            },
    {
        match self {
            Term::Variable { symbol } => symbol,
            Term::Function { symbol, .. } => symbol,
        }
    }

    pub fn is_variable(&self) -> (r: bool)
        ensures
            r == (*self is Variable),
    {
        match self {
            Term::Variable { .. } => true,
            Term::Function { .. } => false,
        }
    }
}

impl Clone for Term<Identifier> {
    #[verifier::loop_isolation(false)]
    fn clone(&self) -> (res: Self)
        ensures
            res@ == self@,
        decreases self,
    {
        match self {
            Term::Variable { symbol } => Term::Variable { symbol: *symbol },
            Term::Function { symbol, parameters } => {
                let mut copies: Vec<Term<Identifier>> = Vec::new();
                let mut i: usize = 0;
                while i < parameters.len()
                    invariant
                        i <= parameters.len(),
                        copies.len() == i,
                        forall|j: int| 0 <= j < i ==> (#[trigger] copies[j])@ == parameters[j]@,
                    decreases parameters.len() - i,
                {
                    copies.push(parameters[i].clone());
                    i += 1;
                }
                let res = Term::Function { symbol: *symbol, parameters: copies };
                proof {
                    lemma_term_view(res);
                    lemma_term_view(*self);
                }
                assert(res@->Fun_1 =~= self@->Fun_1);
                res
            },
        }
    }
}

impl Clone for Term<String> {
    #[verifier::loop_isolation(false)]
    fn clone(&self) -> (res: Self)
        ensures
            res@ == self@,
        decreases self,
    {
        match self {
            Term::Variable { symbol } => Term::Variable { symbol: symbol.clone() },
            Term::Function { symbol, parameters } => {
                let mut copies: Vec<Term<String>> = Vec::new();
                let mut i: usize = 0;
                while i < parameters.len()
                    invariant
                        i <= parameters.len(),
                        copies.len() == i,
                        forall|j: int| 0 <= j < i ==> (#[trigger] copies[j])@ == parameters[j]@,
                    decreases parameters.len() - i,
                {
                    copies.push(parameters[i].clone());
                    i += 1;
                }
                let res = Term::Function { symbol: symbol.clone(), parameters: copies };
                proof {
                    lemma_term_view(res);
                    lemma_term_view(*self);
                }
                assert(res@->Fun_1 =~= self@->Fun_1);
                res
            },
        }
    }
}

/// A copy of a list of terms.
pub fn clone_terms(ts: &Vec<Term<Identifier>>) -> (r: Vec<Term<Identifier>>)
    ensures
        terms_view(r@) == terms_view(ts@),
{
    let mut copies: Vec<Term<Identifier>> = Vec::new();
    let mut i: usize = 0;
    while i < ts.len()
        invariant
            i <= ts.len(),
            copies.len() == i,
            forall|j: int| 0 <= j < i ==> (#[trigger] copies[j])@ == ts[j]@,
        decreases ts.len() - i,
    {
        copies.push(ts[i].clone());
        i += 1;
    }
    assert(terms_view(copies@) =~= terms_view(ts@));
    copies
}

/// A copy of a list of surface terms.
pub fn clone_surface_terms(ts: &Vec<Term<String>>) -> (r: Vec<Term<String>>)
    ensures
        terms_view(r@) == terms_view(ts@),
{
    let mut copies: Vec<Term<String>> = Vec::new();
    let mut i: usize = 0;
    while i < ts.len()
        invariant
            i <= ts.len(),
            copies.len() == i,
            forall|j: int| 0 <= j < i ==> (#[trigger] copies[j])@ == ts[j]@,
        decreases ts.len() - i,
    {
        copies.push(ts[i].clone());
        i += 1;
    }
    assert(terms_view(copies@) =~= terms_view(ts@));
    copies
}

/// Whether two lists of terms are equal, term by term.
pub fn terms_equal(ps: &Vec<Term<Identifier>>, qs: &Vec<Term<Identifier>>) -> (r: bool)
    ensures
        r == (terms_view(ps@) == terms_view(qs@)),
{
    if ps.len() != qs.len() {
        assert(terms_view(ps@).len() != terms_view(qs@).len());
        return false;
    }
    let mut i: usize = 0;
    while i < ps.len()
        invariant
            i <= ps.len(),
            ps.len() == qs.len(),
            forall|j: int| 0 <= j < i ==> (#[trigger] ps[j])@ == qs[j]@,
        decreases ps.len() - i,
    {
        if !ps[i].equals(&qs[i]) {
            assert(terms_view(ps@)[i as int] != terms_view(qs@)[i as int]);
            return false;
        }
        i += 1;
    }
    assert(terms_view(ps@) =~= terms_view(qs@));
    true
}

impl Clone for Atom<Identifier> {
    fn clone(&self) -> (res: Self)
        ensures
            res@ == self@,
    {
        Atom { symbol: self.symbol, parameters: clone_terms(&self.parameters) }
    }
}

impl Clone for Atom<String> {
    fn clone(&self) -> (res: Self)
        ensures
            res@ == self@,
    {
        Atom { symbol: self.symbol.clone(), parameters: clone_surface_terms(&self.parameters) }
    }
}

/// A copy of a list of atoms.
pub fn clone_atoms(atoms: &Vec<Atom<Identifier>>) -> (r: Vec<Atom<Identifier>>)
    ensures
        atoms_view(r@) == atoms_view(atoms@),
{
    let mut copies: Vec<Atom<Identifier>> = Vec::new();
    let mut i: usize = 0;
    while i < atoms.len()
        invariant
            i <= atoms.len(),
            copies.len() == i,
            forall|j: int| 0 <= j < i ==> (#[trigger] copies[j])@ == atoms[j]@,
        decreases atoms.len() - i,
    {
        copies.push(atoms[i].clone());
        i += 1;
    }
    assert(atoms_view(copies@) =~= atoms_view(atoms@));
    copies
}

/// A copy of a list of surface atoms.
pub fn clone_surface_atoms(atoms: &Vec<Atom<String>>) -> (r: Vec<Atom<String>>)
    ensures
        atoms_view(r@) == atoms_view(atoms@),
{
    let mut copies: Vec<Atom<String>> = Vec::new();
    let mut i: usize = 0;
    while i < atoms.len()
        invariant
            i <= atoms.len(),
            copies.len() == i,
            forall|j: int| 0 <= j < i ==> (#[trigger] copies[j])@ == atoms[j]@,
        decreases atoms.len() - i,
    {
        copies.push(atoms[i].clone());
        i += 1;
    }
    assert(atoms_view(copies@) =~= atoms_view(atoms@));
    copies
}

impl Clone for Rule<Identifier> {
    fn clone(&self) -> (res: Self)
        ensures
            res@ == self@,
    {
        Rule { premises: clone_atoms(&self.premises), conclusion: self.conclusion.clone() }
    }
}

impl Clone for Rule<String> {
    fn clone(&self) -> (res: Self)
        ensures
            res@ == self@,
    {
        Rule { premises: clone_surface_atoms(&self.premises), conclusion: self.conclusion.clone() }
    }
}

impl Atom<Identifier> {
    /// Structural equality.
    pub fn equals(&self, other: &Atom<Identifier>) -> (r: bool)
        ensures
            r == (self@ == other@),
    {
        self.symbol == other.symbol && terms_equal(&self.parameters, &other.parameters)
    }

    /// This atom as a term.
    pub fn to_term(&self) -> (r: Term<Identifier>)
        ensures
            r@ == self@.term(),
    {
        let r = Term::Function { symbol: self.symbol, parameters: clone_terms(&self.parameters) };
        proof {
            lemma_term_view(r);
        }
        r
    }

    /// Whether the given variable appears in this atom.
    pub fn contains_variable(&self, variable: &Term<Identifier>) -> (r: bool)
        requires
            variable is Variable,
        ensures
            r == occurs(variable->Variable_symbol, self@.term()),
    {
        let mut i: usize = 0;
        while i < self.parameters.len()
            invariant
                i <= self.parameters.len(),
                variable is Variable,
                forall|j: int|
                    0 <= j < i ==> !occurs(variable->Variable_symbol, (#[trigger] self.parameters[j])@),
            decreases self.parameters.len() - i,
        {
            if self.parameters[i].contains_variable(variable) {
                assert(occurs(variable->Variable_symbol, self@.term()->Fun_1[i as int]));
                return true;
            }
            i += 1;
        }
        assert forall|j: int| 0 <= j < self@.parameters.len() implies !occurs(
            variable->Variable_symbol,
            #[trigger] self@.term()->Fun_1[j],
        ) by {
            assert(!occurs(variable->Variable_symbol, self.parameters[j]@));
        }
        false
    }

    /// Whether the head of this atom is `symbol`.
    pub fn is_symbol(&self, symbol: Identifier) -> (r: bool)
        ensures
            r == (self@.symbol == symbol),
    {
        self.symbol == symbol
    }
}

impl<T> Atom<T> {
    /// Whether this atom is a symbol applied to one bare variable.
    pub fn is_smth_of_variable(&self) -> (r: bool)
        ensures
            r == (self.parameters.len() == 1 && self.parameters[0] is Variable),
    {
        self.parameters.len() == 1 && self.parameters[0].is_variable()
    }
}

impl Rule<Identifier> {
    /// Structural equality; the order of the premises counts.
    pub fn equals(&self, other: &Rule<Identifier>) -> (r: bool)
        ensures
            r == (self@ == other@),
    {
        if !self.conclusion.equals(&other.conclusion) {
            return false;
        }
        if self.premises.len() != other.premises.len() {
            assert(self@.premises.len() != other@.premises.len());
            return false;
        }
        let mut i: usize = 0;
        while i < self.premises.len()
            invariant
                i <= self.premises.len(),
                self.premises.len() == other.premises.len(),
                forall|j: int| 0 <= j < i ==> (#[trigger] self.premises[j])@ == other.premises[j]@,
            decreases self.premises.len() - i,
        {
            if !self.premises[i].equals(&other.premises[i]) {
                assert(self@.premises[i as int] != other@.premises[i as int]);
                return false;
            }
            i += 1;
        }
        assert(self@.premises =~= other@.premises);
        true
    }
}

impl Term<Identifier> {
    /// This term as an atom, if it is an application.
    pub fn to_atom(&self) -> (r: Option<Atom<Identifier>>)
        ensures
            match r {
                Some(a) => self@ is Fun && a@.term() == self@,
                None => self@ is Var,
            },
    {
        proof {
            lemma_term_view(*self);
        }
        match self {
            Term::Function { symbol, parameters } => Some(
                Atom { symbol: *symbol, parameters: clone_terms(parameters) },
            ),
            Term::Variable { .. } => None,
        }
    }

    /// Structural equality.
    #[verifier::loop_isolation(false)]
    pub fn equals(&self, other: &Term<Identifier>) -> (r: bool)
        ensures
            r == (self@ == other@),
        decreases self,
    {
        proof {
            lemma_term_view(*self);
            lemma_term_view(*other);
        }
        match (self, other) {
            (Term::Variable { symbol: a }, Term::Variable { symbol: b }) => *a == *b,
            (
                Term::Function { symbol: f, parameters: ps },
                Term::Function { symbol: g, parameters: qs },
            ) => {
                if *f != *g || ps.len() != qs.len() {
                    return false;
                }
                let mut i: usize = 0;
                while i < ps.len()
                    invariant
                        i <= ps.len(),
                        forall|j: int| 0 <= j < i ==> (#[trigger] ps[j])@ == qs[j]@,
                    decreases ps.len() - i,
                {
                    if !ps[i].equals(&qs[i]) {
                        assert(self@->Fun_1[i as int] != other@->Fun_1[i as int]);
                        return false;
                    }
                    i += 1;
                }
                assert(self@->Fun_1 =~= other@->Fun_1);
                true
            },
            _ => false,
        }
    }

    /// Whether the variable `x` appears in this term. The search keeps the
    /// terms that are still to be looked at in a list of its own, so that
    /// its depth does not grow with that of the term.
    pub fn mentions(&self, x: Identifier) -> (r: bool)
        ensures
            r == occurs(x, self@),
    {
        let mut to_visit: Vec<&Term<Identifier>> = Vec::new();
        to_visit.push(self);
        proof {
            assert(pending(to_visit@)[0] == self@);
            assert(occurs_in_some(x, pending(to_visit@)) == occurs(x, self@)) by {
                if occurs_in_some(x, pending(to_visit@)) {
                    let i = choose|i: int|
                        0 <= i < pending(to_visit@).len() && occurs(x, #[trigger] pending(to_visit@)[i]);
                    assert(i == 0);
                }
            }
        }
        while to_visit.len() > 0
            invariant
                occurs_in_some(x, pending(to_visit@)) == occurs(x, self@),
            decreases sizes(pending(to_visit@)),
        {
            let ghost before = pending(to_visit@);
            let t = to_visit.pop().unwrap();
            let ghost rest = pending(to_visit@);
            proof {
                assert(rest =~= before.drop_last());
                assert(before.last() == t@);
                lemma_term_view(*t);
                lemma_occurs_in_some_push(x, rest, t@);
                assert(before =~= rest.push(t@));
                assert(sizes(before) == sizes(rest) + size(t@));
                assert(size(t@) >= 1);
            }
            match t {
                Term::Variable { symbol } => {
                    if *symbol == x {
                        return true;
                    }
                },
                Term::Function { parameters, .. } => {
                    let ghost args = terms_view(parameters@);
                    let mut i: usize = 0;
                    assert(args.subrange(0, 0) =~= Seq::<TermModel<Identifier>>::empty());
                    assert(rest + args.subrange(0, 0) =~= rest);
                    while i < parameters.len()
                        invariant
                            i <= parameters.len(),
                            args == terms_view(parameters@),
                            pending(to_visit@) == rest + args.subrange(0, i as int),
                        decreases parameters.len() - i,
                    {
                        let ghost now = pending(to_visit@);
                        to_visit.push(&parameters[i]);
                        proof {
                            assert(pending(to_visit@) =~= now.push(args[i as int]));
                            assert(args.subrange(0, i as int + 1) =~= args.subrange(0, i as int).push(
                                args[i as int],
                            ));
                            assert(pending(to_visit@) =~= rest + args.subrange(0, i as int + 1));
                        }
                        i += 1;
                    }
                    proof {
                        assert(args.subrange(0, i as int) =~= args);
                        lemma_sizes_concat(rest, args);
                        assert(t@->Fun_1 == args);
                        assert(size(t@) == 1 + sizes(args));
                        lemma_occurs_in_some_concat(x, rest, args);
                        assert(occurs(x, t@) == occurs_in_some(x, args)) by {
                            if occurs(x, t@) {
                                let k = choose|k: int|
                                    0 <= k < t@->Fun_1.len() && occurs(x, #[trigger] t@->Fun_1[k]);
                                assert(occurs(x, args[k]));
                            }
                            if occurs_in_some(x, args) {
                                let k = choose|k: int|
                                    0 <= k < args.len() && occurs(x, #[trigger] args[k]);
                                assert(occurs(x, t@->Fun_1[k]));
                            }
                        }
                    }
                },
            }
        }
        proof {
            assert(!occurs_in_some(x, pending(to_visit@)));
        }
        false
    }

    /// Whether the given variable appears in this term.
    pub fn contains_variable(&self, variable: &Term<Identifier>) -> (r: bool)
        requires
            variable is Variable,
        ensures
            r == occurs(variable->Variable_symbol, self@),
    {
        match variable {
            Term::Variable { symbol } => self.mentions(*symbol),
            Term::Function { .. } => false,
        }
    }
}

/// The models of the terms that a search has still to look at.
pub open spec fn pending(stack: Seq<&Term<Identifier>>) -> Seq<TermModel<Identifier>> {
    Seq::new(stack.len(), |i: int| (*stack[i])@)
}

/// Whether the variable `x` appears in one of the terms.
pub open spec fn occurs_in_some(x: Identifier, ts: Seq<TermModel<Identifier>>) -> bool {
    exists|i: int| 0 <= i < ts.len() && occurs(x, #[trigger] ts[i])
}

/// A variable appears in one of the terms and one more exactly if it
/// appears in one of the terms or in the one more.
pub proof fn lemma_occurs_in_some_push(
    x: Identifier,
    ts: Seq<TermModel<Identifier>>,
    t: TermModel<Identifier>,
)
    ensures
        occurs_in_some(x, ts.push(t)) == (occurs_in_some(x, ts) || occurs(x, t)),
{
    let all = ts.push(t);
    if occurs_in_some(x, ts) {
        let i = choose|i: int| 0 <= i < ts.len() && occurs(x, #[trigger] ts[i]);
        assert(occurs(x, all[i]));
    }
    if occurs(x, t) {
        assert(occurs(x, all[ts.len() as int]));
    }
    if occurs_in_some(x, all) {
        let i = choose|i: int| 0 <= i < all.len() && occurs(x, #[trigger] all[i]);
        if i < ts.len() {
            assert(occurs(x, ts[i]));
        }
    }
}

/// A variable appears in one of two lists of terms exactly if it appears
/// in one of the first or in one of the second.
pub proof fn lemma_occurs_in_some_concat(
    x: Identifier,
    a: Seq<TermModel<Identifier>>,
    b: Seq<TermModel<Identifier>>,
)
    ensures
        occurs_in_some(x, a + b) == (occurs_in_some(x, a) || occurs_in_some(x, b)),
{
    let all = a + b;
    if occurs_in_some(x, a) {
        let i = choose|i: int| 0 <= i < a.len() && occurs(x, #[trigger] a[i]);
        assert(occurs(x, all[i]));
    }
    if occurs_in_some(x, b) {
        let i = choose|i: int| 0 <= i < b.len() && occurs(x, #[trigger] b[i]);
        assert(occurs(x, all[a.len() + i]));
    }
    if occurs_in_some(x, all) {
        let i = choose|i: int| 0 <= i < all.len() && occurs(x, #[trigger] all[i]);
        if i < a.len() {
            assert(occurs(x, a[i]));
        } else {
            assert(occurs(x, b[i - a.len()]));
        }
    }
}

/// The size of two lists of terms together is the sum of their sizes.
pub proof fn lemma_sizes_concat<S>(a: Seq<TermModel<S>>, b: Seq<TermModel<S>>)
    ensures
        sizes(a + b) == sizes(a) + sizes(b),
    decreases b.len(),
{
    if b.len() == 0 {
        assert(a + b =~= a);
    } else {
        assert((a + b).drop_last() =~= a + b.drop_last());
        assert((a + b).last() == b.last());
        lemma_sizes_concat(a, b.drop_last());
    }
}

} // verus!
