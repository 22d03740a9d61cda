//! Saturation of a clause set under resolution, with the parents of every
//! derived clause on record.
use vstd::prelude::*;
use crate::ast::{rules_surface_view, Atom, AtomModel, InnerRule, Rule, RuleModel, SAtom};
use crate::derivation_tree::{DerivationTree, TreeModel};
use crate::identifiers::{table_new, texts, Identifier, IdentifierServer, ServerModel};
use crate::interning::{intern_atom, intern_rule, Interning};
use crate::lexer::lex;
use crate::naming::{identified_rule, known_rule, nameable_rule, named_rule, named_selection};
use crate::parser::{rules_of, Parser};
use crate::render::{format_vec, join, rule_text};
use crate::resolution::{resolve_spec, select, selection, Selection, SelectionModel};
use crate::sizes::{atom_size, rule_size};
use crate::substitution::{MAtom, MRule};

verus! {

/// The model of the record of one derivation.
pub struct DerivationModel {
    pub rules: (MRule, MRule),
    pub selected_atoms: (SelectionModel<Identifier>, SelectionModel<Identifier>),
}

/// How a clause was derived: its two parents and the atoms on which they
/// were resolved.
pub struct DerivationInfo {
    pub rules: (InnerRule, InnerRule),
    pub selected_atoms: (Selection<Identifier>, Selection<Identifier>),
}

impl View for DerivationInfo {
    type V = DerivationModel;

    open spec fn view(&self) -> DerivationModel {
        DerivationModel {
            rules: (self.rules.0@, self.rules.1@),
            selected_atoms: (self.selected_atoms.0@, self.selected_atoms.1@),
        }
    }
}

/// Why a query was not derived.
#[derive(Debug, PartialEq, Eq, Clone, Copy)]
pub enum SaturationFailure {
    /// The clause set is saturated and does not hold the goal.
    Saturated,
    /// The clause set derives a contradiction.
    DerivedBottom,
    /// The allowed number of steps was used up before the set was saturated.
    Interrupted,
}

/// How a run of the saturation loop ended.
#[derive(Debug, PartialEq, Eq, Clone, Copy, Structural)]
pub enum Outcome {
    /// The goal clause came off the worklist.
    Derived,
    /// The worklist is empty.
    Saturated,
    /// The allowed number of steps was used up.
    Interrupted,
}

/// The record of derivations: each derived clause with how it was derived,
/// in the order in which they were recorded.
pub type Derivations = Seq<(MRule, DerivationModel)>;

/// The state of a saturation: the clause set, the record of derivations and
/// the worklist.
pub struct SaturationModel {
    pub rules: Seq<MRule>,
    pub derived: Derivations,
    pub work: Seq<MRule>,
}

/// Whether the record holds a derivation of `r`.
pub open spec fn has_derivation(derived: Derivations, r: MRule) -> bool {
    exists|i: int| 0 <= i < derived.len() && (#[trigger] derived[i]).0 == r
}

/// The derivation that is recorded when `r` and `s` are resolved for `query`.
pub open spec fn derivation(r: MRule, s: MRule, query: Identifier) -> DerivationModel {
    DerivationModel { rules: (r, s), selected_atoms: (selection(r, query), selection(s, query)) }
}

/// The state after `r` was resolved with the clause `s` of the set: a
/// resolvent that is neither `r` nor in the set goes onto the worklist, and
/// its derivation is recorded unless one is on record already.
pub open spec fn record(st: SaturationModel, r: MRule, s: MRule, query: Identifier) -> SaturationModel {
    match resolve_spec(r, s, query) {
        Some(n) => if n != r && !st.rules.contains(n) {
            SaturationModel {
                rules: st.rules,
                derived: if has_derivation(st.derived, n) {
                    st.derived
                } else {
                    st.derived.push((n, derivation(r, s, query)))
                },
                work: st.work.push(n),
            }
        } else {
            st
        },
        None => st,
    }
}

/// The state after `r` was resolved with the first `n` clauses of the set.
pub open spec fn record_all(st: SaturationModel, r: MRule, n: nat, query: Identifier) -> SaturationModel
    decreases n,
{
    if n == 0 {
        st
    } else {
        record(record_all(st, r, (n - 1) as nat, query), r, st.rules[n - 1], query)
    }
}

/// The clause set with `r` in it.
pub open spec fn with_rule(rules: Seq<MRule>, r: MRule) -> Seq<MRule> {
    if rules.contains(r) {
        rules
    } else {
        rules.push(r)
    }
}

/// One step of saturation: the last clause of the worklist is taken off,
/// resolved with every clause of the set, and put into the set.
pub open spec fn step(st: SaturationModel, query: Identifier) -> SaturationModel {
    let r = st.work.last();
    let taken = SaturationModel { rules: st.rules, derived: st.derived, work: st.work.drop_last() };
    let done = record_all(taken, r, st.rules.len(), query);
    SaturationModel { rules: with_rule(done.rules, r), derived: done.derived, work: done.work }
}

/// A run of at most `fuel` steps: it ends when the worklist is empty, when
/// the goal clause has come off the worklist, or when the steps are used up.
pub open spec fn run(st: SaturationModel, goal: MRule, query: Identifier, fuel: nat) -> (
    SaturationModel,
    Outcome,
)
    decreases fuel,
{
    if st.work.len() == 0 {
        (st, Outcome::Saturated)
    } else if fuel == 0 {
        (st, Outcome::Interrupted)
    } else if st.work.last() == goal {
        (step(st, query), Outcome::Derived)
    } else {
        run(step(st, query), goal, query, (fuel - 1) as nat)
    }
}

/// The record names, for the derived clause, two parents whose resolvent
/// for some query symbol it is, with the atoms that were selected.
pub open spec fn derivation_holds(entry: (MRule, DerivationModel)) -> bool {
    exists|query: Identifier| #[trigger]
        resolve_spec(entry.1.rules.0, entry.1.rules.1, query) == Some(entry.0)
            && entry.1.selected_atoms == (
            selection(entry.1.rules.0, query),
            selection(entry.1.rules.1, query),
        )
}

/// No clause occurs twice.
pub open spec fn no_duplicates(rules: Seq<MRule>) -> bool {
    forall|i: int, j: int| 0 <= i < j < rules.len() ==> rules[i] != rules[j]
}

/// The record is sound: no clause has two derivations, the parents of a
/// derived clause are not derived after it, and each derivation holds.
pub open spec fn derivations_wf(derived: Derivations) -> bool {
    &&& forall|i: int, j: int| 0 <= i < j < derived.len() ==> (#[trigger] derived[i]).0 != (
    #[trigger] derived[j]).0
    &&& forall|i: int, j: int|
        0 <= i < derived.len() && 0 <= j < derived.len() && ((#[trigger] derived[j]).0 == (
        #[trigger] derived[i]).1.rules.0 || derived[j].0 == derived[i].1.rules.1) ==> j < i
    &&& forall|i: int| 0 <= i < derived.len() ==> derivation_holds(#[trigger] derived[i])
}

/// Every parent on record is in the clause set, or is the clause `r`.
pub open spec fn parents_within(derived: Derivations, rules: Seq<MRule>, r: MRule) -> bool {
    forall|i: int|
        0 <= i < derived.len() ==> {
            &&& (rules.contains((#[trigger] derived[i]).1.rules.0) || derived[i].1.rules.0 == r)
            &&& (rules.contains(derived[i].1.rules.1) || derived[i].1.rules.1 == r)
        }
}

/// Every clause is a clause of `initial` or has a derivation on record.
pub open spec fn accounted(rules: Seq<MRule>, initial: Seq<MRule>, derived: Derivations) -> bool {
    forall|i: int|
        0 <= i < rules.len() ==> initial.contains(#[trigger] rules[i]) || has_derivation(
            derived,
            rules[i],
        )
}

/// Resolving `r` with a clause of the set keeps the set, extends the
/// record soundly, and keeps every clause of the worklist accounted for.
pub proof fn lemma_record(
    st: SaturationModel,
    r: MRule,
    s: MRule,
    query: Identifier,
    initial: Seq<MRule>,
)
    requires
        derivations_wf(st.derived),
        parents_within(st.derived, st.rules, r),
        st.rules.contains(s),
        accounted(st.work, initial, st.derived),
        accounted(st.rules, initial, st.derived),
        initial.contains(r) || has_derivation(st.derived, r),
    ensures
        record(st, r, s, query).rules == st.rules,
        derivations_wf(record(st, r, s, query).derived),
        parents_within(record(st, r, s, query).derived, st.rules, r),
        accounted(record(st, r, s, query).work, initial, record(st, r, s, query).derived),
        accounted(st.rules, initial, record(st, r, s, query).derived),
        initial.contains(r) || has_derivation(record(st, r, s, query).derived, r),
        st.derived.len() <= record(st, r, s, query).derived.len(),
        forall|i: int|
            0 <= i < st.derived.len() ==> record(st, r, s, query).derived[i] == st.derived[i],
{
    let next = record(st, r, s, query);
    if let Some(n) = resolve_spec(r, s, query) {
        if n != r && !st.rules.contains(n) {
            let entry = (n, derivation(r, s, query));
            if !has_derivation(st.derived, n) {
                let d = st.derived;
                let d2 = next.derived;
                assert(d2 == d.push(entry));
                assert(derivation_holds(entry)) by {
                    assert(resolve_spec(entry.1.rules.0, entry.1.rules.1, query) == Some(entry.0));
                }
                assert forall|i: int, j: int| 0 <= i < j < d2.len() implies (#[trigger] d2[i]).0 != (
                #[trigger] d2[j]).0 by {
                    if j < d.len() {
                        assert(d[i].0 != d[j].0);
                    } else {
                        assert(d2[i] == d[i]);
                    }
                }
                assert forall|i: int, j: int|
                    0 <= i < d2.len() && 0 <= j < d2.len() && ((#[trigger] d2[j]).0 == (
                    #[trigger] d2[i]).1.rules.0 || d2[j].0 == d2[i].1.rules.1) implies j < i by {
                    if i < d.len() && j < d.len() {
                        assert(d2[i] == d[i] && d2[j] == d[j]);
                    } else if i < d.len() {
                        assert(d2[i] == d[i]);
                        assert(d2[j].0 == n);
                    } else if j < d.len() {
                    } else {
                        assert(s != n);
                    }
                }
                assert forall|i: int| 0 <= i < d2.len() implies derivation_holds(#[trigger] d2[i]) by {
                    if i < d.len() {
                        assert(d2[i] == d[i]);
                    }
                }
                assert forall|i: int| 0 <= i < d2.len() implies {
                    &&& (st.rules.contains((#[trigger] d2[i]).1.rules.0) || d2[i].1.rules.0 == r)
                    &&& (st.rules.contains(d2[i].1.rules.1) || d2[i].1.rules.1 == r)
                } by {
                    if i < d.len() {
                        assert(d2[i] == d[i]);
                    }
                }
                assert(has_derivation(d2, n)) by {
                    assert(d2[d.len() as int].0 == n);
                }
                lemma_has_derivation_push(d, entry);
            }
            assert(has_derivation(next.derived, n));
            assert forall|i: int| 0 <= i < next.work.len() implies initial.contains(
                #[trigger] next.work[i],
            ) || has_derivation(next.derived, next.work[i]) by {
                if i < st.work.len() {
                    assert(next.work[i] == st.work[i]);
                }
            }
        }
    }
}

/// A derivation on record stays on record when another is added.
pub proof fn lemma_has_derivation_push(d: Derivations, entry: (MRule, DerivationModel))
    ensures
        forall|r: MRule| has_derivation(d, r) ==> has_derivation(d.push(entry), r),
{
    assert forall|r: MRule| has_derivation(d, r) implies has_derivation(d.push(entry), r) by {
        let i = choose|i: int| 0 <= i < d.len() && (#[trigger] d[i]).0 == r;
        assert(d.push(entry)[i].0 == r);
    }
}

/// Every parent on record is in the clause set.
pub open spec fn parents_in(derived: Derivations, rules: Seq<MRule>) -> bool {
    forall|i: int|
        0 <= i < derived.len() ==> rules.contains((#[trigger] derived[i]).1.rules.0)
            && rules.contains(derived[i].1.rules.1)
}

/// `a` is the beginning of `b`.
pub open spec fn begins<A>(a: Seq<A>, b: Seq<A>) -> bool {
    a.len() <= b.len() && forall|i: int| 0 <= i < a.len() ==> a[i] == b[i]
}

/// What holds between the steps of a saturation that started from the
/// clause set `initial`.
pub open spec fn saturation_inv(st: SaturationModel, initial: Seq<MRule>) -> bool {
    &&& no_duplicates(st.rules)
    &&& derivations_wf(st.derived)
    &&& parents_in(st.derived, st.rules)
    &&& accounted(st.work, initial, st.derived)
    &&& accounted(st.rules, initial, st.derived)
}

/// Resolving `r` with the first `n` clauses of the set keeps the set,
/// extends the record soundly, and keeps every clause accounted for.
pub proof fn lemma_record_all(
    st: SaturationModel,
    r: MRule,
    n: nat,
    query: Identifier,
    initial: Seq<MRule>,
)
    requires
        n <= st.rules.len(),
        derivations_wf(st.derived),
        parents_within(st.derived, st.rules, r),
        accounted(st.work, initial, st.derived),
        accounted(st.rules, initial, st.derived),
        initial.contains(r) || has_derivation(st.derived, r),
    ensures
        record_all(st, r, n, query).rules == st.rules,
        derivations_wf(record_all(st, r, n, query).derived),
        parents_within(record_all(st, r, n, query).derived, st.rules, r),
        accounted(record_all(st, r, n, query).work, initial, record_all(st, r, n, query).derived),
        accounted(st.rules, initial, record_all(st, r, n, query).derived),
        initial.contains(r) || has_derivation(record_all(st, r, n, query).derived, r),
        begins(st.derived, record_all(st, r, n, query).derived),
    decreases n,
{
    if n > 0 {
        let before = record_all(st, r, (n - 1) as nat, query);
        lemma_record_all(st, r, (n - 1) as nat, query, initial);
        assert(st.rules.contains(st.rules[n - 1]));
        lemma_record(before, r, st.rules[n - 1], query, initial);
    }
}

/// A clause set without duplicates stays so when a clause is put into it,
/// and then holds the clause and all that it held.
pub proof fn lemma_with_rule(rules: Seq<MRule>, r: MRule)
    requires
        no_duplicates(rules),
    ensures
        no_duplicates(with_rule(rules, r)),
        with_rule(rules, r).contains(r),
        begins(rules, with_rule(rules, r)),
        forall|x: MRule| rules.contains(x) ==> with_rule(rules, r).contains(x),
        forall|x: MRule| with_rule(rules, r).contains(x) ==> rules.contains(x) || x == r,
{
    let next = with_rule(rules, r);
    if !rules.contains(r) {
        assert(next[rules.len() as int] == r);
        assert forall|i: int, j: int| 0 <= i < j < next.len() implies next[i] != next[j] by {
            if j == rules.len() {
                assert(rules[i] == next[i]);
                assert(rules.contains(rules[i]));
            } else {
                assert(rules[i] != rules[j]);
            }
        }
        assert forall|x: MRule| rules.contains(x) implies next.contains(x) by {
            let i = choose|i: int| 0 <= i < rules.len() && rules[i] == x;
            assert(next[i] == x);
        }
        assert forall|x: MRule| next.contains(x) implies rules.contains(x) || x == r by {
            let i = choose|i: int| 0 <= i < next.len() && next[i] == x;
            if i < rules.len() {
                assert(rules[i] == x);
            }
        }
    }
}

/// A step keeps the invariant; the clause set and the record only grow.
pub proof fn lemma_step(st: SaturationModel, query: Identifier, initial: Seq<MRule>)
    requires
        saturation_inv(st, initial),
        st.work.len() > 0,
    ensures
        saturation_inv(step(st, query), initial),
        begins(st.rules, step(st, query).rules),
        begins(st.derived, step(st, query).derived),
        step(st, query).rules.contains(st.work.last()),
{
    let r = st.work.last();
    let taken = SaturationModel { rules: st.rules, derived: st.derived, work: st.work.drop_last() };
    assert(accounted(taken.work, initial, taken.derived)) by {
        assert forall|i: int| 0 <= i < taken.work.len() implies initial.contains(
            #[trigger] taken.work[i],
        ) || has_derivation(taken.derived, taken.work[i]) by {
            assert(taken.work[i] == st.work[i]);
        }
    }
    assert(initial.contains(r) || has_derivation(st.derived, r)) by {
        assert(r == st.work[st.work.len() - 1]);
    }
    lemma_record_all(taken, r, st.rules.len(), query, initial);
    let done = record_all(taken, r, st.rules.len(), query);
    lemma_with_rule(st.rules, r);
    let next = step(st, query);
    assert forall|i: int| 0 <= i < next.derived.len() implies next.rules.contains(
        (#[trigger] next.derived[i]).1.rules.0,
    ) && next.rules.contains(next.derived[i].1.rules.1) by {}
    assert forall|i: int| 0 <= i < next.rules.len() implies initial.contains(
        #[trigger] next.rules[i],
    ) || has_derivation(next.derived, next.rules[i]) by {
        if i < st.rules.len() {
            assert(next.rules[i] == st.rules[i]);
        }
    }
}

/// A run keeps the invariant; the clause set and the record only grow. A
/// run that ends with the goal derived has put the goal into the set, and
/// a run that ends saturated has emptied the worklist.
pub proof fn lemma_run(
    st: SaturationModel,
    goal: MRule,
    query: Identifier,
    fuel: nat,
    initial: Seq<MRule>,
)
    requires
        saturation_inv(st, initial),
    ensures
        saturation_inv(run(st, goal, query, fuel).0, initial),
        begins(st.rules, run(st, goal, query, fuel).0.rules),
        begins(st.derived, run(st, goal, query, fuel).0.derived),
        run(st, goal, query, fuel).1 == Outcome::Derived ==> run(
            st,
            goal,
            query,
            fuel,
        ).0.rules.contains(goal),
        run(st, goal, query, fuel).1 == Outcome::Saturated ==> run(st, goal, query, fuel).0.work.len()
            == 0,
    decreases fuel,
{
    if st.work.len() > 0 && fuel > 0 {
        lemma_step(st, query, initial);
        if st.work.last() != goal {
            lemma_run(step(st, query), goal, query, (fuel - 1) as nat, initial);
        }
    }
}

/// What a saturation engine holds.
pub struct SnifferModel {
    pub rules: Seq<MRule>,
    pub derived: Derivations,
    pub server: ServerModel,
}

/// The models of a list of clauses.
pub open spec fn rules_view(rules: Seq<InnerRule>) -> Seq<MRule> {
    Seq::new(rules.len(), |i: int| rules[i]@)
}

/// The model of a record of derivations.
pub open spec fn derived_view(derived: Seq<(InnerRule, DerivationInfo)>) -> Derivations {
    Seq::new(derived.len(), |i: int| (derived[i].0@, derived[i].1@))
}

/// A clause set stands in good order: no clause occurs twice, the record of
/// derivations is sound, and every parent on record is in the set.
pub open spec fn sniffer_wf(m: SnifferModel) -> bool {
    &&& no_duplicates(m.rules)
    &&& derivations_wf(m.derived)
    &&& parents_in(m.derived, m.rules)
}

/// The saturation engine: a clause set, the record of how each derived
/// clause was derived, and the symbol table.
pub struct Sniffer {
    rules: Vec<InnerRule>,
    derived_from: Vec<(InnerRule, DerivationInfo)>,
    id_server: IdentifierServer,
}

impl View for Sniffer {
    type V = SnifferModel;

    closed spec fn view(&self) -> SnifferModel {
        SnifferModel {
            rules: rules_view(self.rules@),
            derived: derived_view(self.derived_from@),
            server: self.id_server@,
        }
    }
}

/// Whether the list holds the clause.
pub fn rules_contain(rules: &Vec<InnerRule>, rule: &InnerRule) -> (r: bool)
    ensures
        r == rules_view(rules@).contains(rule@),
{
    let mut i: usize = 0;
    while i < rules.len()
        invariant
            i <= rules.len(),
            forall|j: int| 0 <= j < i ==> rules_view(rules@)[j] != rule@,
        decreases rules.len() - i,
    {
        if rules[i].equals(rule) {
            assert(rules_view(rules@)[i as int] == rule@);
            return true;
        }
        i += 1;
    }
    false
}

impl Sniffer {
    /// The engine in the state of a saturation with the given worklist.
    pub open spec fn state(&self, work: Seq<InnerRule>) -> SaturationModel {
        SaturationModel { rules: self@.rules, derived: self@.derived, work: rules_view(work) }
    }

    /// Whether the clause set holds the clause.
    pub fn contains(&self, rule: &InnerRule) -> (r: bool)
        ensures
            r == self@.rules.contains(rule@),
    {
        rules_contain(&self.rules, rule)
    }

    /// The place of the derivation of the clause in the record, if it has one.
    pub fn derivation_index(&self, rule: &InnerRule) -> (r: Option<usize>)
        ensures
            match r {
                Some(i) => i < self@.derived.len() && self@.derived[i as int].0 == rule@,
                None => !has_derivation(self@.derived, rule@),
            },
    {
        let mut i: usize = 0;
        while i < self.derived_from.len()
            invariant
                i <= self.derived_from.len(),
                forall|j: int| 0 <= j < i ==> (#[trigger] self@.derived[j]).0 != rule@,
            decreases self.derived_from.len() - i,
        {
            if self.derived_from[i].0.equals(rule) {
                return Some(i);
            }
            i += 1;
        }
        None
    }

    /// Resolves `rule` with every clause of the set: each resolvent that is
    /// neither `rule` nor in the set goes onto the worklist, with its
    /// derivation on record unless it has one already.
    fn resolve_against_all(&mut self, rule: &InnerRule, work: &mut Vec<InnerRule>, query: Identifier)
        ensures
            final(self).state(final(work)@) == record_all(
                old(self).state(old(work)@),
                rule@,
                old(self)@.rules.len(),
                query,
            ),
            final(self)@.server == old(self)@.server,
    {
        let ghost start = self.state(work@);
        let mut k: usize = 0;
        while k < self.rules.len()
            invariant
                k <= self.rules.len(),
                self@.rules == start.rules,
                self@.server == old(self)@.server,
                self.state(work@) == record_all(start, rule@, k as nat, query),
            decreases self.rules.len() - k,
        {
            let other = self.rules[k].clone();
            let ghost before = self.state(work@);
            assert(other@ == start.rules[k as int]);
            match rule.resolve(&other, query) {
                Some(n) => {
                    if !n.equals(rule) && !self.contains(&n) {
                        if self.derivation_index(&n).is_none() {
                            let info = DerivationInfo {
                                rules: (rule.clone(), other),
                                selected_atoms: (select(rule, query), select(&self.rules[k], query)),
                            };
                            let ghost d = self@.derived;
                            self.derived_from.push((n.clone(), info));
                            assert(self@.derived =~= d.push((n@, derivation(rule@, other@, query))));
                            assert(self@.rules =~= start.rules);
                        }
                        let ghost w = rules_view(work@);
                        work.push(n);
                        assert(rules_view(work@) =~= w.push(n@));
                    }
                },
                None => {},
            }
            assert(self.state(work@) == record(before, rule@, other@, query));
            k += 1;
        }
    }

    /// One step of saturation: takes the last clause off the worklist,
    /// resolves it with every clause of the set, and puts it into the set.
    /// Returns the clause.
    pub fn step(&mut self, work: &mut Vec<InnerRule>, query: Identifier) -> (rule: InnerRule)
        requires
            old(work).len() > 0,
        ensures
            rule@ == rules_view(old(work)@).last(),
            final(self).state(final(work)@) == step(old(self).state(old(work)@), query),
            final(self)@.server == old(self)@.server,
            sniffer_wf(old(self)@) ==> sniffer_wf(final(self)@),
            begins(old(self)@.rules, final(self)@.rules),
            begins(old(self)@.derived, final(self)@.derived),
    {
        let ghost st = self.state(work@);
        proof {
            let initial = st.rules + st.work;
            if sniffer_wf(self@) {
                assert forall|i: int| 0 <= i < st.work.len() implies initial.contains(
                    #[trigger] st.work[i],
                ) by {
                    assert(initial[st.rules.len() + i] == st.work[i]);
                }
                assert forall|i: int| 0 <= i < st.rules.len() implies initial.contains(
                    #[trigger] st.rules[i],
                ) by {
                    assert(initial[i] == st.rules[i]);
                }
                lemma_step(st, query, initial);
            }
            lemma_step_grows(st, query);
        }
        let rule = work.pop().unwrap();
        assert(rules_view(work@) =~= st.work.drop_last());
        self.resolve_against_all(&rule, work, query);
        if !self.contains(&rule) {
            let ghost rs = self@.rules;
            let ghost d = self@.derived;
            self.rules.push(rule.clone());
            assert(self@.rules =~= rs.push(rule@));
            assert(self@.derived =~= d);
        }
        rule
    }

    /// Saturates the clause set for the query symbol, starting with every
    /// clause of the set on the worklist, in at most `max_steps` steps. It
    /// stops early when `searching` has come off the worklist.
    pub fn saturate(&mut self, searching: &InnerRule, query: Identifier, max_steps: usize) -> (outcome:
        Outcome)
        requires
            sniffer_wf(old(self)@),
        ensures
            sniffer_wf(final(self)@),
            final(self)@.server == old(self)@.server,
            ({
                let start = SaturationModel {
                    rules: old(self)@.rules,
                    derived: old(self)@.derived,
                    work: old(self)@.rules,
                };
                let end = run(start, searching@, query, max_steps as nat);
                &&& final(self)@.rules == end.0.rules
                &&& final(self)@.derived == end.0.derived
                &&& outcome == end.1
            }),
            begins(old(self)@.rules, final(self)@.rules),
            begins(old(self)@.derived, final(self)@.derived),
            accounted(final(self)@.rules, old(self)@.rules, final(self)@.derived),
            outcome == Outcome::Derived ==> final(self)@.rules.contains(searching@),
    {
        let ghost initial = self@.rules;
        let mut work: Vec<InnerRule> = Vec::new();
        let mut i: usize = 0;
        while i < self.rules.len()
            invariant
                i <= self.rules.len(),
                work.len() == i,
                forall|j: int| 0 <= j < i ==> (#[trigger] work[j])@ == self.rules[j]@,
            decreases self.rules.len() - i,
        {
            work.push(self.rules[i].clone());
            i += 1;
        }
        assert(rules_view(work@) =~= initial);
        let ghost start = self.state(work@);
        proof {
            assert(accounted(start.work, initial, start.derived)) by {
                assert forall|i: int| 0 <= i < start.work.len() implies initial.contains(
                    #[trigger] start.work[i],
                ) by {}
            }
            lemma_run(start, searching@, query, max_steps as nat, initial);
        }
        let mut steps: usize = 0;
        let mut outcome = Outcome::Interrupted;
        while steps < max_steps
            invariant_except_break
                steps <= max_steps,
                outcome == Outcome::Interrupted,
                run(self.state(work@), searching@, query, (max_steps - steps) as nat) == run(
                    start,
                    searching@,
                    query,
                    max_steps as nat,
                ),
                self@.server == old(self)@.server,
            ensures
                self@.server == old(self)@.server,
                outcome != Outcome::Interrupted ==> (self.state(work@), outcome) == run(
                    start,
                    searching@,
                    query,
                    max_steps as nat,
                ),
                outcome == Outcome::Interrupted ==> run(self.state(work@), searching@, query, 0)
                    == run(start, searching@, query, max_steps as nat),
            decreases max_steps - steps,
        {
            if work.len() == 0 {
                outcome = Outcome::Saturated;
                break;
            }
            let rule = self.step(&mut work, query);
            if rule.equals(searching) {
                outcome = Outcome::Derived;
                break;
            }
            steps += 1;
        }
        if outcome == Outcome::Interrupted && work.len() == 0 {
            outcome = Outcome::Saturated;
        }
        outcome
    }
}

/// `i` is the place of the first derivation of `r` among the first `n` on
/// record.
pub open spec fn first_derivation(derived: Derivations, r: MRule, n: nat, i: int) -> bool {
    &&& 0 <= i < n
    &&& i < derived.len()
    &&& derived[i].0 == r
    &&& forall|j: int| 0 <= j < i ==> (#[trigger] derived[j]).0 != r
}

/// The tree, if there is one, as a sequence of at most one tree.
pub open spec fn tree_seq(t: Option<TreeModel>) -> Seq<TreeModel> {
    match t {
        Some(x) => seq![x],
        None => Seq::empty(),
    }
}

/// The derivation tree of the clause `r`, resolved on `sel`, from the
/// first `n` derivations on record; there is none if a symbol of the
/// clause has no name.
pub open spec fn subtree(
    derived: Derivations,
    server: ServerModel,
    r: MRule,
    n: nat,
    sel: SelectionModel<Identifier>,
) -> Option<TreeModel>
    decreases n, 1nat,
{
    if nameable_rule(r, server) {
        Some(
            TreeModel {
                root: named_rule(r, server),
                subtrees: children(derived, server, r, n),
                selection: named_selection(sel, server),
            },
        )
    } else {
        None
    }
}

/// The trees of the parents of the clause `r`, from the first `n`
/// derivations on record: none if `r` has no derivation among them.
pub open spec fn children(derived: Derivations, server: ServerModel, r: MRule, n: nat) -> Seq<
    TreeModel,
>
    decreases n, 0nat,
{
    if exists|i: int| first_derivation(derived, r, n, i) {
        let i = choose|i: int| first_derivation(derived, r, n, i);
        let d = derived[i].1;
        tree_seq(subtree(derived, server, d.rules.0, i as nat, d.selected_atoms.0)) + tree_seq(
            subtree(derived, server, d.rules.1, i as nat, d.selected_atoms.1),
        )
    } else {
        Seq::empty()
    }
}

/// The models of a list of trees.
pub open spec fn trees_view(ts: Seq<DerivationTree>) -> Seq<TreeModel> {
    Seq::new(ts.len(), |i: int| ts[i]@)
}

impl Sniffer {
    /// The place of the first derivation of the clause among the first
    /// `bound` on record.
    fn derivation_below(&self, rule: &InnerRule, bound: usize) -> (r: Option<usize>)
        requires
            bound <= self@.derived.len(),
        ensures
            match r {
                Some(i) => first_derivation(self@.derived, rule@, bound as nat, i as int),
                None => forall|i: int| !first_derivation(self@.derived, rule@, bound as nat, i),
            },
    {
        let mut i: usize = 0;
        while i < bound
            invariant
                i <= bound <= self.derived_from.len(),
                forall|j: int| 0 <= j < i ==> (#[trigger] self@.derived[j]).0 != rule@,
            decreases bound - i,
        {
            if self.derived_from[i].0.equals(rule) {
                return Some(i);
            }
            i += 1;
        }
        assert forall|k: int| !first_derivation(self@.derived, rule@, bound as nat, k) by {
            if 0 <= k < bound {
                assert(self@.derived[k].0 != rule@);
            }
        }
        None
    }

    /// The trees of the parents of the clause, from the first `bound`
    /// derivations on record.
    fn children_below(&self, rule: &InnerRule, bound: usize) -> (r: Vec<DerivationTree>)
        requires
            bound <= self@.derived.len(),
        ensures
            trees_view(r@) == children(self@.derived, self@.server, rule@, bound as nat),
        decreases bound, 0nat,
    {
        let mut trees: Vec<DerivationTree> = Vec::new();
        match self.derivation_below(rule, bound) {
            Some(i) => {
                proof {
                    let k = choose|k: int| first_derivation(self@.derived, rule@, bound as nat, k);
                    if k < i {
                        assert(self@.derived[k].0 != rule@);
                    }
                    assert(k == i);
                }
                let info = &self.derived_from[i].1;
                assert(info@ == self@.derived[i as int].1);
                let left = self.tree_below(&info.rules.0, i, &info.selected_atoms.0);
                let right = self.tree_below(&info.rules.1, i, &info.selected_atoms.1);
                let ghost lv = tree_seq(
                    subtree(
                        self@.derived,
                        self@.server,
                        info@.rules.0,
                        i as nat,
                        info@.selected_atoms.0,
                    ),
                );
                if let Some(tree) = left {
                    trees.push(tree);
                }
                assert(trees_view(trees@) =~= lv);
                if let Some(tree) = right {
                    trees.push(tree);
                }
                assert(trees_view(trees@) =~= children(
                    self@.derived,
                    self@.server,
                    rule@,
                    bound as nat,
                ));
            },
            None => {
                assert(trees_view(trees@) =~= Seq::<TreeModel>::empty());
            },
        }
        trees
    }

    /// The derivation tree of the clause, resolved on `selection`, from the
    /// first `bound` derivations on record.
    fn tree_below(&self, rule: &InnerRule, bound: usize, selection: &Selection<Identifier>) -> (r:
        Option<DerivationTree>)
        requires
            bound <= self@.derived.len(),
        ensures
            match r {
                Some(t) => subtree(self@.derived, self@.server, rule@, bound as nat, selection@)
                    == Some(t@),
                None => subtree(self@.derived, self@.server, rule@, bound as nat, selection@) is None,
            },
        decreases bound, 1nat,
    {
        match rule.to_string(&self.id_server) {
            Some(named) => {
                let mut tree = DerivationTree::new(named);
                let below = self.children_below(rule, bound);
                let ghost want = children(self@.derived, self@.server, rule@, bound as nat);
                let mut k: usize = 0;
                assert(want.subrange(0, 0) =~= Seq::<TreeModel>::empty());
                while k < below.len()
                    invariant
                        k <= below.len(),
                        trees_view(below@) == want,
                        tree@ == (TreeModel {
                            root: named@,
                            subtrees: want.subrange(0, k as int),
                            selection: None,
                        }),
                    decreases below.len() - k,
                {
                    tree.add_subtree(below[k].clone());
                    proof {
                        assert(want.subrange(0, k as int + 1) =~= want.subrange(0, k as int).push(
                            want[k as int],
                        ));
                    }
                    k += 1;
                }
                assert(want.subrange(0, k as int) =~= want);
                match selection.to_string(&self.id_server) {
                    Some(s) => {
                        tree.set_selection(s);
                    },
                    None => {},
                }
                Some(tree)
            },
            None => None,
        }
    }

    /// The derivation tree of the given clause: the clause at the root,
    /// and below it the trees of the clauses it was derived from. `None`
    /// if a name of the clause is not known.
    pub fn derivation_tree(&self, root: &Rule<String>) -> (r: Option<DerivationTree>)
        ensures
            match r {
                Some(t) => known_rule(root@, self@.server) && t@ == (TreeModel {
                    root: root@,
                    subtrees: children(
                        self@.derived,
                        self@.server,
                        identified_rule(root@, self@.server),
                        self@.derived.len(),
                    ),
                    selection: None,
                }),
                None => !known_rule(root@, self@.server),
            },
    {
        match root.to_known(&self.id_server) {
            Some(rule) => Some(self.tree_under(root.clone(), &rule)),
            None => None,
        }
    }

    /// The tree with the clause `label` at the root, and below it the trees
    /// of the clauses that `rule` was derived from.
    fn tree_under(&self, label: Rule<String>, rule: &InnerRule) -> (t: DerivationTree)
        ensures
            t@ == (TreeModel {
                root: label@,
                subtrees: children(self@.derived, self@.server, rule@, self@.derived.len()),
                selection: None,
            }),
    {
        let mut tree = DerivationTree::new(label);
        let below = self.children_below(rule, self.derived_from.len());
        let ghost want = children(self@.derived, self@.server, rule@, self@.derived.len());
        let mut k: usize = 0;
        assert(want.subrange(0, 0) =~= Seq::<TreeModel>::empty());
        while k < below.len()
            invariant
                k <= below.len(),
                trees_view(below@) == want,
                tree@ == (TreeModel {
                    root: label@,
                    subtrees: want.subrange(0, k as int),
                    selection: None,
                }),
            decreases below.len() - k,
        {
            tree.add_subtree(below[k].clone());
            proof {
                assert(want.subrange(0, k as int + 1) =~= want.subrange(0, k as int).push(
                    want[k as int],
                ));
            }
            k += 1;
        }
        assert(want.subrange(0, k as int) =~= want);
        tree
    }
}

/// The goal of a query for the atom: the fact that says the atom, interned.
pub open spec fn query_goal(m: SnifferModel, atom: SAtom) -> MRule {
    fact(intern_atom(atom, Interning { server: m.server, scope: Map::empty() }).0)
}

/// The run of saturation that a query for the atom starts: every clause
/// of the set is on the worklist, and the query symbol is the atom's.
pub open spec fn query_run(m: SnifferModel, atom: SAtom, max_steps: nat) -> (
    SaturationModel,
    Outcome,
) {
    run(
        SaturationModel { rules: m.rules, derived: m.derived, work: m.rules },
        query_goal(m, atom),
        query_goal(m, atom).conclusion.symbol,
        max_steps,
    )
}

/// The engine after a query for the atom.
pub open spec fn after_query(m: SnifferModel, atom: SAtom, max_steps: nat) -> SnifferModel {
    SnifferModel {
        rules: query_run(m, atom, max_steps).0.rules,
        derived: query_run(m, atom, max_steps).0.derived,
        server: intern_atom(atom, Interning { server: m.server, scope: Map::empty() }).1.server,
    }
}

/// The answer to a query for the atom: if the clause set then holds the
/// goal, the tree with the query at the root and the trees of the parents
/// of the goal below it; otherwise whether the set is saturated or the
/// steps were used up.
pub open spec fn answer(m: SnifferModel, atom: SAtom, max_steps: nat) -> Result<
    TreeModel,
    SaturationFailure,
> {
    let end = after_query(m, atom, max_steps);
    if end.rules.contains(query_goal(m, atom)) {
        Ok(
            TreeModel {
                root: fact(atom),
                subtrees: children(end.derived, end.server, query_goal(m, atom), end.derived.len()),
                selection: None,
            },
        )
    } else if query_run(m, atom, max_steps).1 == Outcome::Interrupted {
        Err(SaturationFailure::Interrupted)
    } else {
        Err(SaturationFailure::Saturated)
    }
}

/// The fact that says the atom.
pub open spec fn fact<S>(a: AtomModel<S>) -> RuleModel<S> {
    RuleModel { premises: Seq::empty(), conclusion: a }
}

impl Default for Sniffer {
    fn default() -> (r: Self)
        ensures
            r@.rules == Seq::<MRule>::empty(),
            r@.derived == Seq::<(MRule, DerivationModel)>::empty(),
            r@.server.variables == 0,
            r@.server.functions == Seq::<Seq<char>>::empty(),
            r@.server.names == Map::<Seq<char>, Identifier>::empty(),
            sniffer_wf(r@),
    {
        let r = Sniffer {
            rules: Vec::new(),
            derived_from: Vec::new(),
            id_server: IdentifierServer::default(),
        };
        assert(r@.rules =~= Seq::<MRule>::empty());
        assert(r@.derived =~= Seq::<(MRule, DerivationModel)>::empty());
        r
    }
}

impl Sniffer {
    /// The clauses of the set, in the order in which they came in.
    pub fn rules(&self) -> (r: &Vec<InnerRule>)
        ensures
            rules_view(r@) == self@.rules,
    {
        &self.rules
    }

    /// The symbol table.
    pub fn id_server(&self) -> (r: &IdentifierServer)
        ensures
            r@ == self@.server,
    {
        &self.id_server
    }

    /// The derivation on record for the clause, if there is one.
    pub fn derivation_of(&self, rule: &InnerRule) -> (r: Option<&DerivationInfo>)
        ensures
            match r {
                Some(info) => exists|i: int|
                    0 <= i < self@.derived.len() && #[trigger] self@.derived[i] == (rule@, info@),
                None => !has_derivation(self@.derived, rule@),
            },
    {
        match self.derivation_index(rule) {
            Some(i) => {
                assert(self@.derived[i as int] == (rule@, self.derived_from[i as int].1@));
                Some(&self.derived_from[i].1)
            },
            None => None,
        }
    }

    /// Puts a surface clause into the set, with variables of its own.
    pub fn add_rule(&mut self, rule: &Rule<String>)
        requires
            sniffer_wf(old(self)@),
            old(self)@.server.variables + rule_size(rule@) <= usize::MAX,
        ensures
            sniffer_wf(final(self)@),
            final(self)@.server == intern_rule(rule@, old(self)@.server).1,
            final(self)@.rules == with_rule(
                old(self)@.rules,
                intern_rule(rule@, old(self)@.server).0,
            ),
            final(self)@.derived == old(self)@.derived,
    {
        let inner = rule.to_inner(&mut self.id_server);
        proof {
            lemma_with_rule(self@.rules, inner@);
        }
        if !self.contains(&inner) {
            let ghost rs = self@.rules;
            let ghost d = self@.derived;
            self.rules.push(inner);
            assert(self@.rules =~= rs.push(inner@));
            assert(self@.derived =~= d);
        }
    }

    /// Puts a surface clause into the set, with variables of its own, if
    /// the symbol table can still issue a variable for each of its nodes.
    /// Returns whether it did.
    pub fn insert(&mut self, rule: &Rule<String>) -> (done: bool)
        requires
            sniffer_wf(old(self)@),
        ensures
            sniffer_wf(final(self)@),
            done == (old(self)@.server.variables + rule_size(rule@) <= usize::MAX),
            done ==> final(self)@.server == intern_rule(rule@, old(self)@.server).1,
            done ==> final(self)@.rules == with_rule(
                old(self)@.rules,
                intern_rule(rule@, old(self)@.server).0,
            ),
            !done ==> final(self)@ == old(self)@,
            final(self)@.derived == old(self)@.derived,
    {
        match rule.checked_size() {
            Some(n) => match n.checked_add(self.id_server.variables()) {
                Some(_) => {
                    self.add_rule(rule);
                    true
                },
                None => false,
            },
            None => false,
        }
    }

    /// Looks for a derivation of the atom: saturates the clause set for
    /// the symbol of the atom, in at most `max_steps` steps, and returns the
    /// derivation tree of the fact that says the atom if the set then holds
    /// it. Otherwise the error says whether the set is saturated or the
    /// steps were used up.
    pub fn find(&mut self, atom: &Atom<String>, max_steps: usize) -> (r: Result<
        DerivationTree,
        SaturationFailure,
    >)
        requires
            sniffer_wf(old(self)@),
            old(self)@.server.variables + atom_size(atom@) <= usize::MAX,
        ensures
            sniffer_wf(final(self)@),
            begins(old(self)@.rules, final(self)@.rules),
            begins(old(self)@.derived, final(self)@.derived),
            accounted(final(self)@.rules, old(self)@.rules, final(self)@.derived),
            final(self)@ == after_query(old(self)@, atom@, max_steps as nat),
            match r {
                Ok(tree) => answer(old(self)@, atom@, max_steps as nat) == Ok::<
                    TreeModel,
                    SaturationFailure,
                >(tree@),
                Err(e) => answer(old(self)@, atom@, max_steps as nat) == Err::<
                    TreeModel,
                    SaturationFailure,
                >(e),
            },
    {
        let mut scope = table_new();
        let inner_atom = atom.to_inner(&mut self.id_server, &mut scope);
        let query = inner_atom.symbol;
        let inner_rule = Rule { conclusion: inner_atom, premises: Vec::new() };
        assert(inner_rule@.premises =~= Seq::<MAtom>::empty());
        let outcome = self.saturate(&inner_rule, query, max_steps);
        if self.contains(&inner_rule) {
            let label = Rule { conclusion: atom.clone(), premises: Vec::new() };
            assert(label@.premises =~= Seq::<AtomModel<Seq<char>>>::empty());
            Ok(self.tree_under(label, &inner_rule))
        } else {
            match outcome {
                Outcome::Interrupted => Err(SaturationFailure::Interrupted),
                _ => Err(SaturationFailure::Saturated),
            }
        }
    }

    /// The clauses of the set in the surface language; a clause with a
    /// symbol that has no name is left out.
    pub fn iter_rules(&self) -> (r: Vec<Rule<String>>)
        ensures
            rules_surface_view(r@) == named_rules(self@.rules, self@.server),
    {
        let ghost all = self@.rules;
        let mut out: Vec<Rule<String>> = Vec::new();
        let mut i: usize = 0;
        assert(all.subrange(0, 0) =~= Seq::<MRule>::empty());
        assert(rules_surface_view(out@) =~= Seq::<RuleModel<Seq<char>>>::empty());
        while i < self.rules.len()
            invariant
                i <= self.rules.len(),
                all == self@.rules,
                rules_surface_view(out@) == named_rules(
                    all.subrange(0, i as int),
                    self@.server,
                ),
            decreases self.rules.len() - i,
        {
            proof {
                assert(all.subrange(0, i as int + 1).drop_last() =~= all.subrange(0, i as int));
                assert(all.subrange(0, i as int + 1).last() == self.rules[i as int]@);
            }
            match self.rules[i].to_string(&self.id_server) {
                Some(named) => {
                    let ghost before = rules_surface_view(out@);
                    out.push(named);
                    assert(rules_surface_view(out@) =~= before.push(named@));
                },
                None => {},
            }
            i += 1;
        }
        assert(all.subrange(0, i as int) =~= all);
        out
    }
}

/// The clauses that can be named, named, in their order.
pub open spec fn named_rules(rules: Seq<MRule>, server: ServerModel) -> Seq<RuleModel<Seq<char>>>
    decreases rules.len(),
{
    if rules.len() == 0 {
        Seq::empty()
    } else if nameable_rule(rules.last(), server) {
        named_rules(rules.drop_last(), server).push(named_rule(rules.last(), server))
    } else {
        named_rules(rules.drop_last(), server)
    }
}

/// Why a text could not be loaded.
#[derive(Debug, PartialEq, Eq, Clone, Copy)]
pub enum LoadError {
    /// The text is not in the language.
    Syntax,
    /// The symbol table cannot issue a variable for each node of a clause.
    Capacity,
}

/// The state after the clauses were put into the set, one after the other,
/// if the symbol table could issue the variables for each.
pub open spec fn loaded(rules: Seq<RuleModel<Seq<char>>>, m: SnifferModel) -> Option<SnifferModel>
    decreases rules.len(),
{
    if rules.len() == 0 {
        Some(m)
    } else {
        match loaded(rules.drop_last(), m) {
            Some(before) => if before.server.variables + rule_size(rules.last()) <= usize::MAX {
                Some(
                    SnifferModel {
                        rules: with_rule(
                            before.rules,
                            intern_rule(rules.last(), before.server).0,
                        ),
                        derived: before.derived,
                        server: intern_rule(rules.last(), before.server).1,
                    },
                )
            } else {
                None
            },
            None => None,
        }
    }
}

/// The engine that holds nothing.
pub open spec fn empty_sniffer() -> SnifferModel {
    SnifferModel {
        rules: Seq::empty(),
        derived: Seq::empty(),
        server: ServerModel { variables: 0, functions: Seq::empty(), names: Map::empty() },
    }
}

impl Sniffer {
    /// The engine that holds the given clauses, each with variables of
    /// its own, or `None` if the symbol table cannot issue them all.
    pub fn from_rules(rules: &Vec<Rule<String>>) -> (r: Option<Sniffer>)
        ensures
            match r {
                Some(s) => sniffer_wf(s@) && loaded(
                    rules_surface_view(rules@),
                    empty_sniffer(),
                ) == Some(s@),
                None => loaded(rules_surface_view(rules@), empty_sniffer()) is None,
            },
    {
        let ghost all = rules_surface_view(rules@);
        let mut sniffer = Sniffer::default();
        let mut i: usize = 0;
        assert(all.subrange(0, 0) =~= Seq::<RuleModel<Seq<char>>>::empty());
        assert(sniffer@ == empty_sniffer());
        while i < rules.len()
            invariant
                i <= rules.len(),
                all == rules_surface_view(rules@),
                sniffer_wf(sniffer@),
                loaded(all.subrange(0, i as int), empty_sniffer()) == Some(sniffer@),
            decreases rules.len() - i,
        {
            proof {
                assert(all.subrange(0, i as int + 1).drop_last() =~= all.subrange(0, i as int));
                assert(all.subrange(0, i as int + 1).last() == rules[i as int]@);
            }
            if !sniffer.insert(&rules[i]) {
                proof {
                    lemma_loaded_fails(all, i as int + 1, empty_sniffer());
                }
                return None;
            }
            i += 1;
        }
        assert(all.subrange(0, i as int) =~= all);
        Some(sniffer)
    }

    /// The engine that holds the clauses that the text spells.
    pub fn new(source: &str) -> (r: Result<Sniffer, LoadError>)
        ensures
            match r {
                Ok(s) => sniffer_wf(s@) && rules_of(lex(source@))
                    is Some && loaded(
                    rules_of(lex(source@))->0,
                    empty_sniffer(),
                ) == Some(s@),
                Err(LoadError::Syntax) => rules_of(lex(source@))
                    is None,
                Err(LoadError::Capacity) => rules_of(lex(source@))
                    is Some && loaded(
                    rules_of(lex(source@))->0,
                    empty_sniffer(),
                ) is None,
            },
    {
        match Parser::parse_rules(source) {
            Ok(rules) => match Sniffer::from_rules(&rules) {
                Some(s) => Ok(s),
                None => Err(LoadError::Capacity),
            },
            Err(_) => Err(LoadError::Syntax),
        }
    }

    /// The text of the clauses of the set, one on each line; a clause
    /// with a symbol that has no name is left out.
    pub fn rules_to_string(&self) -> (r: String)
        ensures
            r@ == join(
                rules_text(named_rules(self@.rules, self@.server)),
                seq!['\n'],
            ),
    {
        let named = self.iter_rules();
        let mut lines: Vec<String> = Vec::new();
        let mut i: usize = 0;
        while i < named.len()
            invariant
                i <= named.len(),
                lines.len() == i,
                forall|j: int|
                    0 <= j < i ==> (#[trigger] lines[j])@ == rule_text(named[j]@),
            decreases named.len() - i,
        {
            lines.push(named[i].to_string());
            i += 1;
        }
        proof {
            reveal_strlit("\n");
            assert("\n"@ =~= seq!['\n']);
            assert(texts(lines@) =~= rules_text(
                named_rules(self@.rules, self@.server),
            ));
        }
        format_vec(&lines, "\n")
    }
}

/// The texts of a sequence of clauses.
pub open spec fn rules_text(rules: Seq<RuleModel<Seq<char>>>) -> Seq<Seq<char>> {
    Seq::new(rules.len(), |i: int| rule_text(rules[i]))
}

/// Once the first `n` clauses cannot be loaded, neither can all.
pub proof fn lemma_loaded_fails(rules: Seq<RuleModel<Seq<char>>>, n: int, m: SnifferModel)
    requires
        0 <= n <= rules.len(),
        loaded(rules.subrange(0, n), m) is None,
    ensures
        loaded(rules, m) is None,
    decreases rules.len() - n,
{
    if n < rules.len() {
        assert(rules.subrange(0, n + 1).drop_last() =~= rules.subrange(0, n));
        lemma_loaded_fails(rules, n + 1, m);
    } else {
        assert(rules.subrange(0, n) =~= rules);
    }
}

/// Parent integrity: resolving the two parents on record for a derived
/// clause, for some query symbol, gives that clause, and the atoms on
/// record are those that were selected in the parents.
pub proof fn lemma_parent_integrity(m: SnifferModel, i: int)
    requires
        sniffer_wf(m),
        0 <= i < m.derived.len(),
    ensures
        exists|query: Identifier| #[trigger]
            resolve_spec(m.derived[i].1.rules.0, m.derived[i].1.rules.1, query) == Some(
                m.derived[i].0,
            ) && m.derived[i].1.selected_atoms == (
                selection(m.derived[i].1.rules.0, query),
                selection(m.derived[i].1.rules.1, query),
            ),
        m.rules.contains(m.derived[i].1.rules.0),
        m.rules.contains(m.derived[i].1.rules.1),
{
    assert(derivation_holds(m.derived[i]));
}

/// Every clause of a set that is accounted for is a clause of the
/// initial set, or the resolvent, for some query symbol, of two clauses of
/// the set.
pub proof fn lemma_derived_by_resolution(m: SnifferModel, initial: Seq<MRule>, r: MRule)
    requires
        sniffer_wf(m),
        accounted(m.rules, initial, m.derived),
        m.rules.contains(r),
    ensures
        initial.contains(r) || exists|p: MRule, q: MRule, query: Identifier|
            m.rules.contains(p) && m.rules.contains(q) && #[trigger] resolve_spec(p, q, query)
                == Some(r),
{
    let k = choose|k: int| 0 <= k < m.rules.len() && m.rules[k] == r;
    assert(initial.contains(m.rules[k]) || has_derivation(m.derived, m.rules[k]));
    if !initial.contains(r) {
        let i = choose|i: int| 0 <= i < m.derived.len() && (#[trigger] m.derived[i]).0 == r;
        lemma_parent_integrity(m, i);
        let query = choose|query: Identifier| #[trigger]
            resolve_spec(m.derived[i].1.rules.0, m.derived[i].1.rules.1, query) == Some(
                m.derived[i].0,
            ) && m.derived[i].1.selected_atoms == (
                selection(m.derived[i].1.rules.0, query),
                selection(m.derived[i].1.rules.1, query),
            );
        assert(resolve_spec(m.derived[i].1.rules.0, m.derived[i].1.rules.1, query) == Some(r));
    }
}

/// Monotonicity: a run of saturation removes no clause from the set and
/// no derivation from the record.
pub proof fn lemma_run_monotonic(
    st: SaturationModel,
    goal: MRule,
    query: Identifier,
    fuel: nat,
    r: MRule,
)
    requires
        saturation_inv(st, st.rules),
        st.rules.contains(r),
    ensures
        run(st, goal, query, fuel).0.rules.contains(r),
{
    lemma_run(st, goal, query, fuel, st.rules);
    let end = run(st, goal, query, fuel).0;
    let k = choose|k: int| 0 <= k < st.rules.len() && st.rules[k] == r;
    assert(end.rules[k] == r);
}

/// Determinism: two runs of saturation from the same state, for the same
/// goal and query symbol and with the same number of steps, end in the same
/// clause set, with the same derivations on record and the same outcome.
pub proof fn lemma_run_deterministic(
    a: SaturationModel,
    b: SaturationModel,
    goal: MRule,
    query: Identifier,
    fuel: nat,
)
    requires
        a == b,
    ensures
        run(a, goal, query, fuel) == run(b, goal, query, fuel),
{
}

/// Determinism: the same query to two engines in the same state leaves
/// them in the same state, with the same answer.
pub proof fn lemma_query_deterministic(
    a: SnifferModel,
    b: SnifferModel,
    atom: SAtom,
    max_steps: nat,
)
    requires
        a == b,
    ensures
        after_query(a, atom, max_steps) == after_query(b, atom, max_steps),
        answer(a, atom, max_steps) == answer(b, atom, max_steps),
{
}

/// Resolving a clause with clauses of the set leaves the set as it is
/// and takes nothing off the record.
pub proof fn lemma_record_all_grows(st: SaturationModel, r: MRule, n: nat, query: Identifier)
    ensures
        record_all(st, r, n, query).rules == st.rules,
        begins(st.derived, record_all(st, r, n, query).derived),
    decreases n,
{
    if n > 0 {
        lemma_record_all_grows(st, r, (n - 1) as nat, query);
    }
}

/// A step takes no clause out of the set and nothing off the record.
pub proof fn lemma_step_grows(st: SaturationModel, query: Identifier)
    ensures
        begins(st.rules, step(st, query).rules),
        begins(st.derived, step(st, query).derived),
{
    let taken = SaturationModel { rules: st.rules, derived: st.derived, work: st.work.drop_last() };
    lemma_record_all_grows(taken, st.work.last(), st.rules.len(), query);
}

} // verus!
