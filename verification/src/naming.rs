//! Between identifiers and names: the surface form of internal terms,
//! and the internal form of surface terms whose names are known.
use vstd::prelude::*;
use crate::ast::{
    lemma_term_view, terms_view, Atom, AtomModel, InnerAtom, InnerRule, InnerTerm, Rule,
    RuleModel, SAtom, SRule, STerm, Term, TermModel,
};
use crate::identifiers::{Identifier, IdentifierServer, ServerModel};
use crate::resolution::{Selection, SelectionModel};
use crate::substitution::{MAtom, MRule, MTerm};

verus! {

/// Whether every symbol of the term has a name in the table.
pub open spec fn nameable(t: MTerm, s: ServerModel) -> bool
    decreases t,
{
    match t {
        TermModel::Var(x) => s.name_of(x) is Some,
        TermModel::Fun(f, args) => s.name_of(f) is Some && forall|i: int|
            0 <= i < args.len() ==> nameable(#[trigger] args[i], s),
    }
}

/// The term with every symbol replaced by its name.
pub open spec fn named(t: MTerm, s: ServerModel) -> STerm
    decreases t,
{
    match t {
        TermModel::Var(x) => TermModel::Var(s.name_of(x)->0),
        TermModel::Fun(f, args) => TermModel::Fun(
            s.name_of(f)->0,
            Seq::new(
                args.len(),
                |i: int|
                    if 0 <= i < args.len() {
                        named(args[i], s)
                    } else {
                        arbitrary()
                    },
            ),
        ),
    }
}

/// The terms of a sequence with every symbol replaced by its name.
pub open spec fn named_all(ts: Seq<MTerm>, s: ServerModel) -> Seq<STerm> {
    Seq::new(ts.len(), |i: int| named(ts[i], s))
}

/// Whether every symbol of the atom has a name in the table.
pub open spec fn nameable_atom(a: MAtom, s: ServerModel) -> bool {
    s.name_of(a.symbol) is Some && forall|i: int|
        0 <= i < a.parameters.len() ==> nameable(#[trigger] a.parameters[i], s)
}

/// The atom with every symbol replaced by its name.
pub open spec fn named_atom(a: MAtom, s: ServerModel) -> SAtom {
    AtomModel { symbol: s.name_of(a.symbol)->0, parameters: named_all(a.parameters, s) }
}

/// Whether every symbol of the clause has a name in the table.
pub open spec fn nameable_rule(r: MRule, s: ServerModel) -> bool {
    nameable_atom(r.conclusion, s) && forall|i: int|
        0 <= i < r.premises.len() ==> nameable_atom(#[trigger] r.premises[i], s)
}

/// The clause with every symbol replaced by its name.
pub open spec fn named_rule(r: MRule, s: ServerModel) -> SRule {
    RuleModel {
        premises: Seq::new(r.premises.len(), |i: int| named_atom(r.premises[i], s)),
        conclusion: named_atom(r.conclusion, s),
    }
}

/// The terms of a list with every symbol replaced by its name, or `None`
/// if a symbol has no name.
pub fn terms_to_string(ts: &Vec<InnerTerm>, id_server: &IdentifierServer) -> (r: Option<
    Vec<Term<String>>,
>)
    ensures
        match r {
            Some(names) => terms_view(names@) == named_all(terms_view(ts@), id_server@) && forall|
                i: int,
            |
                0 <= i < ts.len() ==> nameable(#[trigger] terms_view(ts@)[i], id_server@),
            None => exists|i: int|
                0 <= i < ts.len() && !nameable(#[trigger] terms_view(ts@)[i], id_server@),
        },
    decreases ts,
{
    let mut names: Vec<Term<String>> = Vec::new();
    let mut i: usize = 0;
    while i < ts.len()
        invariant
            i <= ts.len(),
            names.len() == i,
            forall|j: int| 0 <= j < i ==> (#[trigger] names[j])@ == named(ts[j]@, id_server@),
            forall|j: int| 0 <= j < i ==> nameable(#[trigger] terms_view(ts@)[j], id_server@),
        decreases ts.len() - i,
    {
        match ts[i].to_string(id_server) {
            Some(name) => {
                names.push(name);
            },
            None => {
                assert(!nameable(terms_view(ts@)[i as int], id_server@));
                return None;
            },
        }
        i += 1;
    }
    assert(terms_view(names@) =~= named_all(terms_view(ts@), id_server@));
    Some(names)
}

impl Term<Identifier> {
    /// This term in the surface language, or `None` if one of its symbols
    /// has no name in the table.
    pub fn to_string(&self, id_server: &IdentifierServer) -> (r: Option<Term<String>>)
        ensures
            match r {
                Some(t) => nameable(self@, id_server@) && t@ == named(self@, id_server@),
                None => !nameable(self@, id_server@),
            },
        decreases self,
    {
        proof {
            lemma_term_view(*self);
        }
        match self {
            Term::Variable { symbol } => match id_server.name_of(symbol) {
                Some(name) => Some(Term::Variable { symbol: name }),
                None => None,
            },
            Term::Function { symbol, parameters } => match id_server.name_of(symbol) {
                Some(name) => match terms_to_string(parameters, id_server) {
                    Some(names) => {
                        let r = Term::Function { symbol: name, parameters: names };
                        proof {
                            lemma_term_view(r);
                            assert(r@->Fun_1 =~= named(self@, id_server@)->Fun_1);
                        }
                        Some(r)
                    },
                    None => None,
                },
                None => None,
            },
        }
    }
}

impl Atom<Identifier> {
    /// This atom in the surface language, or `None` if one of its symbols
    /// has no name in the table.
    pub fn to_string(&self, id_server: &IdentifierServer) -> (r: Option<Atom<String>>)
        ensures
            match r {
                Some(a) => nameable_atom(self@, id_server@) && a@ == named_atom(self@, id_server@),
                None => !nameable_atom(self@, id_server@),
            },
    {
        match id_server.name_of(&self.symbol) {
            Some(name) => match terms_to_string(&self.parameters, id_server) {
                Some(names) => {
                    let r = Atom { symbol: name, parameters: names };
                    proof {
                        assert(self@.parameters == terms_view(self.parameters@));
                        assert forall|i: int| 0 <= i < self@.parameters.len() implies nameable(
                            #[trigger] self@.parameters[i],
                            id_server@,
                        ) by {
                            assert(nameable(terms_view(self.parameters@)[i], id_server@));
                        }
                        assert(r@.parameters == named_all(self@.parameters, id_server@));
                    }
                    Some(r)
                },
                None => None,
            },
            None => None,
        }
    }
}

impl Rule<Identifier> {
    /// This clause in the surface language, or `None` if one of its
    /// symbols has no name in the table.
    pub fn to_string(&self, id_server: &IdentifierServer) -> (r: Option<Rule<String>>)
        ensures
            match r {
                Some(rule) => nameable_rule(self@, id_server@) && rule@ == named_rule(
                    self@,
                    id_server@,
                ),
                None => !nameable_rule(self@, id_server@),
            },
    {
        let conclusion = match self.conclusion.to_string(id_server) {
            Some(c) => c,
            None => {
                return None;
            },
        };
        let mut premises: Vec<Atom<String>> = Vec::new();
        let mut i: usize = 0;
        while i < self.premises.len()
            invariant
                i <= self.premises.len(),
                premises.len() == i,
                forall|j: int|
                    0 <= j < i ==> (#[trigger] premises[j])@ == named_atom(
                        self.premises[j]@,
                        id_server@,
                    ),
                forall|j: int| 0 <= j < i ==> nameable_atom(#[trigger] self@.premises[j], id_server@),
            decreases self.premises.len() - i,
        {
            match self.premises[i].to_string(id_server) {
                Some(name) => {
                    premises.push(name);
                },
                None => {
                    assert(!nameable_atom(self@.premises[i as int], id_server@));
                    return None;
                },
            }
            i += 1;
        }
        let r = Rule { premises, conclusion };
        assert(r@.premises =~= named_rule(self@, id_server@).premises);
        Some(r)
    }
}

/// Whether every name of the term is known to the table.
pub open spec fn known(t: STerm, s: ServerModel) -> bool
    decreases t,
{
    match t {
        TermModel::Var(x) => s.id_of(x) is Some,
        TermModel::Fun(f, args) => s.id_of(f) is Some && forall|i: int|
            0 <= i < args.len() ==> known(#[trigger] args[i], s),
    }
}

/// The term with every name replaced by the identifier it stands for.
pub open spec fn identified(t: STerm, s: ServerModel) -> MTerm
    decreases t,
{
    match t {
        TermModel::Var(x) => TermModel::Var(s.id_of(x)->0),
        TermModel::Fun(f, args) => TermModel::Fun(
            s.id_of(f)->0,
            Seq::new(
                args.len(),
                |i: int|
                    if 0 <= i < args.len() {
                        identified(args[i], s)
                    } else {
                        arbitrary()
                    },
            ),
        ),
    }
}

/// The terms of a sequence with every name replaced by its identifier.
pub open spec fn identified_all(ts: Seq<STerm>, s: ServerModel) -> Seq<MTerm> {
    Seq::new(ts.len(), |i: int| identified(ts[i], s))
}

/// Whether every name of the atom is known to the table.
pub open spec fn known_atom(a: SAtom, s: ServerModel) -> bool {
    s.id_of(a.symbol) is Some && forall|i: int|
        0 <= i < a.parameters.len() ==> known(#[trigger] a.parameters[i], s)
}

/// The atom with every name replaced by its identifier.
pub open spec fn identified_atom(a: SAtom, s: ServerModel) -> MAtom {
    AtomModel { symbol: s.id_of(a.symbol)->0, parameters: identified_all(a.parameters, s) }
}

/// Whether every name of the clause is known to the table.
pub open spec fn known_rule(r: SRule, s: ServerModel) -> bool {
    known_atom(r.conclusion, s) && forall|i: int|
        0 <= i < r.premises.len() ==> known_atom(#[trigger] r.premises[i], s)
}

/// The clause with every name replaced by its identifier.
pub open spec fn identified_rule(r: SRule, s: ServerModel) -> MRule {
    RuleModel {
        premises: Seq::new(r.premises.len(), |i: int| identified_atom(r.premises[i], s)),
        conclusion: identified_atom(r.conclusion, s),
    }
}

/// The terms of a list with every name replaced by its identifier, or
/// `None` if a name is not known.
pub fn terms_to_known(ts: &Vec<Term<String>>, id_server: &IdentifierServer) -> (r: Option<
    Vec<InnerTerm>,
>)
    ensures
        match r {
            Some(ids) => terms_view(ids@) == identified_all(terms_view(ts@), id_server@) && forall|
                i: int,
            |
                0 <= i < ts.len() ==> known(#[trigger] terms_view(ts@)[i], id_server@),
            None => exists|i: int|
                0 <= i < ts.len() && !known(#[trigger] terms_view(ts@)[i], id_server@),
        },
    decreases ts,
{
    let mut ids: Vec<InnerTerm> = Vec::new();
    let mut i: usize = 0;
    while i < ts.len()
        invariant
            i <= ts.len(),
            ids.len() == i,
            forall|j: int| 0 <= j < i ==> (#[trigger] ids[j])@ == identified(ts[j]@, id_server@),
            forall|j: int| 0 <= j < i ==> known(#[trigger] terms_view(ts@)[j], id_server@),
        decreases ts.len() - i,
    {
        match ts[i].to_known(id_server) {
            Some(id) => {
                ids.push(id);
            },
            None => {
                assert(!known(terms_view(ts@)[i as int], id_server@));
                return None;
            },
        }
        i += 1;
    }
    assert(terms_view(ids@) =~= identified_all(terms_view(ts@), id_server@));
    Some(ids)
}

impl Term<String> {
    /// This term in the internal representation, with the identifiers that
    /// its names already stand for, or `None` if a name is not known.
    pub fn to_known(&self, id_server: &IdentifierServer) -> (r: Option<InnerTerm>)
        ensures
            match r {
                Some(t) => known(self@, id_server@) && t@ == identified(self@, id_server@),
                None => !known(self@, id_server@),
            },
        decreases self,
    {
        proof {
            lemma_term_view(*self);
        }
        match self {
            Term::Variable { symbol } => match id_server.id_of(symbol.as_str()) {
                Some(id) => Some(Term::Variable { symbol: id }),
                None => None,
            },
            Term::Function { symbol, parameters } => match id_server.id_of(symbol.as_str()) {
                Some(id) => match terms_to_known(parameters, id_server) {
                    Some(ids) => {
                        let r = Term::Function { symbol: id, parameters: ids };
                        proof {
                            lemma_term_view(r);
                            assert(r@->Fun_1 =~= identified(self@, id_server@)->Fun_1);
                        }
                        Some(r)
                    },
                    None => None,
                },
                None => None,
            },
        }
    }
}

impl Atom<String> {
    /// This atom in the internal representation, with the identifiers that
    /// its names already stand for, or `None` if a name is not known.
    pub fn to_known(&self, id_server: &IdentifierServer) -> (r: Option<InnerAtom>)
        ensures
            match r {
                Some(a) => known_atom(self@, id_server@) && a@ == identified_atom(self@, id_server@),
                None => !known_atom(self@, id_server@),
            },
    {
        match id_server.id_of(self.symbol.as_str()) {
            Some(id) => match terms_to_known(&self.parameters, id_server) {
                Some(ids) => {
                    let r = Atom { symbol: id, parameters: ids };
                    proof {
                        assert(self@.parameters == terms_view(self.parameters@));
                        assert forall|i: int| 0 <= i < self@.parameters.len() implies known(
                            #[trigger] self@.parameters[i],
                            id_server@,
                        ) by {
                            assert(known(terms_view(self.parameters@)[i], id_server@));
                        }
                    }
                    Some(r)
                },
                None => None,
            },
            None => None,
        }
    }
}

impl Rule<String> {
    /// This clause in the internal representation, with the identifiers
    /// that its names already stand for, or `None` if a name is not known.
    pub fn to_known(&self, id_server: &IdentifierServer) -> (r: Option<InnerRule>)
        ensures
            match r {
                Some(rule) => known_rule(self@, id_server@) && rule@ == identified_rule(
                    self@,
                    id_server@,
                ),
                None => !known_rule(self@, id_server@),
            },
    {
        let conclusion = match self.conclusion.to_known(id_server) {
            Some(c) => c,
            None => {
                return None;
            },
        };
        let mut premises: Vec<InnerAtom> = Vec::new();
        let mut i: usize = 0;
        while i < self.premises.len()
            invariant
                i <= self.premises.len(),
                premises.len() == i,
                forall|j: int|
                    0 <= j < i ==> (#[trigger] premises[j])@ == identified_atom(
                        self.premises[j]@,
                        id_server@,
                    ),
                forall|j: int| 0 <= j < i ==> known_atom(#[trigger] self@.premises[j], id_server@),
            decreases self.premises.len() - i,
        {
            match self.premises[i].to_known(id_server) {
                Some(id) => {
                    premises.push(id);
                },
                None => {
                    assert(!known_atom(self@.premises[i as int], id_server@));
                    return None;
                },
            }
            i += 1;
        }
        let r = Rule { premises, conclusion };
        assert(r@.premises =~= identified_rule(self@, id_server@).premises);
        Some(r)
    }
}

/// The selection with every symbol replaced by its name, if all have one.
pub open spec fn named_selection(s: SelectionModel<Identifier>, server: ServerModel) -> Option<
    SelectionModel<Seq<char>>,
> {
    match s {
        SelectionModel::Premise(a, i) => if nameable_atom(a, server) {
            Some(SelectionModel::Premise(named_atom(a, server), i))
        } else {
            None
        },
        SelectionModel::Conclusion(a) => if nameable_atom(a, server) {
            Some(SelectionModel::Conclusion(named_atom(a, server)))
        } else {
            None
        },
    }
}

impl Selection<Identifier> {
    /// This selection in the surface language, or `None` if one of its
    /// symbols has no name in the table.
    pub fn to_string(&self, id_server: &IdentifierServer) -> (r: Option<Selection<String>>)
        ensures
            crate::derivation_tree::selection_view(r) == named_selection(self@, id_server@),
    {
        match self {
            Selection::Premise(a, i) => match a.to_string(id_server) {
                Some(named) => Some(Selection::Premise(named, *i)),
                None => None,
            },
            Selection::Conclusion(a) => match a.to_string(id_server) {
                Some(named) => Some(Selection::Conclusion(named)),
                None => None,
            },
        }
    }
}

} // verus!
