//! The tree of a derivation: a clause, the trees of the clauses that it was
//! derived from, and the atom on which it was resolved.
use vstd::prelude::*;
use vstd::string::StringExecFns;
use vstd::string::StrSliceExecFns;
use crate::ast::{Rule, RuleModel};
use crate::render::{atom_text, rule_text};
use crate::resolution::{Selection, SelectionModel};

verus! {

/// The model of a derivation tree.
pub struct TreeModel {
    pub root: RuleModel<Seq<char>>,
    pub subtrees: Seq<TreeModel>,
    pub selection: Option<SelectionModel<Seq<char>>>,
}

/// A derivation tree.
pub struct DerivationTree {
    root: Rule<String>,
    subtrees: Vec<DerivationTree>,
    selection: Option<Selection<String>>,
}

/// The model of a selection that may be absent.
pub open spec fn selection_view(s: Option<Selection<String>>) -> Option<SelectionModel<Seq<char>>> {
    match s {
        Some(x) => Some(x@),
        None => None,
    }
}

/// The model of a tree, by structural recursion.
pub closed spec fn tree_view(t: DerivationTree) -> TreeModel
    decreases t,
{
    TreeModel {
        root: t.root@,
        subtrees: Seq::new(
            t.subtrees.len() as nat,
            |i: int|
                if 0 <= i < t.subtrees.len() {
                    tree_view(t.subtrees[i])
                } else {
                    arbitrary()
                },
        ),
        selection: selection_view(t.selection),
    }
}

impl View for DerivationTree {
    type V = TreeModel;

    open spec fn view(&self) -> TreeModel {
        tree_view(*self)
    }
}

/// The number of leaves of a tree.
pub open spec fn leaves(t: TreeModel) -> nat
    decreases t, 0nat,
{
    if t.subtrees.len() == 0 {
        1
    } else {
        leaves_of(t.subtrees)
    }
}

/// The number of leaves of a sequence of trees.
pub open spec fn leaves_of(ts: Seq<TreeModel>) -> nat
    decreases ts, 1nat,
{
    if ts.len() == 0 {
        0
    } else {
        leaves_of(ts.drop_last()) + leaves(ts.last())
    }
}

impl DerivationTree {
    /// The tree that has the clause at its root and nothing below.
    pub fn new(root: Rule<String>) -> (t: DerivationTree)
        ensures
            t@ == (TreeModel { root: root@, subtrees: Seq::empty(), selection: None }),
    {
        let t = DerivationTree { root, subtrees: Vec::new(), selection: None };
        assert(t@.subtrees =~= Seq::<TreeModel>::empty());
        t
    }

    /// Puts the tree `subtree` below the root, after those that are there.
    pub fn add_subtree(&mut self, subtree: DerivationTree)
        ensures
            final(self)@ == (TreeModel {
                root: old(self)@.root,
                subtrees: old(self)@.subtrees.push(subtree@),
                selection: old(self)@.selection,
            }),
    {
        self.subtrees.push(subtree);
        assert(self@.subtrees =~= old(self)@.subtrees.push(subtree@));
    }

    /// Records the atom on which the clause at the root was resolved.
    pub fn set_selection(&mut self, selection: Selection<String>)
        ensures
            final(self)@ == (TreeModel {
                root: old(self)@.root,
                subtrees: old(self)@.subtrees,
                selection: Some(selection@),
            }),
    {
        self.selection = Some(selection);
        assert(self@.subtrees =~= old(self)@.subtrees);
    }

    /// The clause at the root.
    pub fn root(&self) -> (r: &Rule<String>)
        ensures
            r@ == self@.root,
    {
        &self.root
    }

    /// The trees below the root.
    pub fn subtrees(&self) -> (r: &Vec<DerivationTree>)
        ensures
            r.len() == self@.subtrees.len(),
            forall|i: int| 0 <= i < r.len() ==> (#[trigger] r[i])@ == self@.subtrees[i],
    {
        &self.subtrees
    }

    /// The atom on which the clause at the root was resolved, if recorded.
    pub fn selection(&self) -> (r: &Option<Selection<String>>)
        ensures
            selection_view(*r) == self@.selection,
    {
        &self.selection
    }

    /// The number of leaves of the tree.
    pub fn count_leaves(&self) -> (n: usize)
        requires
            leaves(self@) <= usize::MAX,
        ensures
            n == leaves(self@),
        decreases self,
    {
        if self.subtrees.len() == 0 {
            return 1;
        }
        let ghost all = self@.subtrees;
        let mut total: usize = 0;
        let mut i: usize = 0;
        assert(all.subrange(0, 0) =~= Seq::<TreeModel>::empty());
        while i < self.subtrees.len()
            invariant
                i <= self.subtrees.len(),
                all == self@.subtrees,
                all.len() == self.subtrees.len(),
                leaves(self@) == leaves_of(all),
                leaves_of(all) <= usize::MAX,
                total == leaves_of(all.subrange(0, i as int)),
            decreases self.subtrees.len() - i,
        {
            proof {
                lemma_leaves_step(all, i as int);
                assert(all[i as int] == self.subtrees[i as int]@);
            }
            total = total + self.subtrees[i].count_leaves();
            i += 1;
        }
        assert(all.subrange(0, i as int) =~= all);
        total
    }
}

/// The leaves of the first `i + 1` trees are those of the first `i` and of
/// the next, and no more than those of all.
pub proof fn lemma_leaves_step(ts: Seq<TreeModel>, i: int)
    requires
        0 <= i < ts.len(),
    ensures
        leaves_of(ts.subrange(0, i + 1)) == leaves_of(ts.subrange(0, i)) + leaves(ts[i]),
        leaves_of(ts.subrange(0, i + 1)) <= leaves_of(ts),
    decreases ts.len() - i,
{
    assert(ts.subrange(0, i + 1).drop_last() =~= ts.subrange(0, i));
    if i + 1 < ts.len() {
        lemma_leaves_step(ts, i + 1);
    } else {
        assert(ts.subrange(0, i + 1) =~= ts);
    }
}

impl Clone for DerivationTree {
    #[verifier::loop_isolation(false)]
    fn clone(&self) -> (res: Self)
        ensures
            res@ == self@,
        decreases self,
    {
        let mut copies: Vec<DerivationTree> = Vec::new();
        let mut i: usize = 0;
        while i < self.subtrees.len()
            invariant
                i <= self.subtrees.len(),
                copies.len() == i,
                forall|j: int| 0 <= j < i ==> (#[trigger] copies[j])@ == self.subtrees[j]@,
            decreases self.subtrees.len() - i,
        {
            copies.push(self.subtrees[i].clone());
            i += 1;
        }
        let selection = match &self.selection {
            Some(s) => Some(s.clone()),
            None => None,
        };
        let res = DerivationTree { root: self.root.clone(), subtrees: copies, selection };
        assert(res@.subtrees =~= self@.subtrees);
        res
    }
}

/// Whether `needle` stands in `text` at the place `i`.
pub open spec fn occurs_at(text: Seq<char>, needle: Seq<char>, i: int) -> bool {
    0 <= i && i + needle.len() <= text.len() && text.subrange(i, i + needle.len()) == needle
}

/// `i` is the first place at which `needle` stands in `text`.
pub open spec fn first_occurrence(text: Seq<char>, needle: Seq<char>, i: int) -> bool {
    occurs_at(text, needle, i) && forall|j: int| 0 <= j < i ==> !occurs_at(text, needle, j)
}

/// A text in three parts, the middle one to be set off.
pub struct Highlight {
    pub before: String,
    pub selected: String,
    pub after: String,
}

/// The text of the selected atom, or the empty text for no selection.
pub open spec fn selected_text(s: Option<SelectionModel<Seq<char>>>) -> Seq<char> {
    match s {
        Some(SelectionModel::Premise(a, _)) => atom_text(a),
        Some(SelectionModel::Conclusion(a)) => atom_text(a),
        None => Seq::empty(),
    }
}

/// Whether the parts are the text split at the first place where the
/// needle stands in it; where it does not, or is empty, the text is the
/// first part and the others are empty.
pub open spec fn splits(text: Seq<char>, needle: Seq<char>, parts: (Seq<char>, Seq<char>, Seq<char>)) -> bool {
    if needle.len() > 0 && exists|i: int| first_occurrence(text, needle, i) {
        let i = choose|i: int| first_occurrence(text, needle, i);
        parts == (text.subrange(0, i), needle, text.subrange(i + needle.len(), text.len() as int))
    } else {
        parts == (text, Seq::<char>::empty(), Seq::<char>::empty())
    }
}

/// Whether `needle` stands in `text` at the place `i`.
fn stands_at(text: &str, n: usize, needle: &str, m: usize, i: usize) -> (r: bool)
    requires
        n == text@.len(),
        m == needle@.len(),
        i + m <= n,
    ensures
        r == occurs_at(text@, needle@, i as int),
{
    let mut k: usize = 0;
    while k < m
        invariant
            k <= m,
            n == text@.len(),
            m == needle@.len(),
            i + m <= n,
            forall|j: int| 0 <= j < k ==> text@[i + j] == needle@[j],
        decreases m - k,
    {
        if text.get_char(i + k) != needle.get_char(k) {
            assert(text@.subrange(i as int, i + m)[k as int] != needle@[k as int]);
            return false;
        }
        k += 1;
    }
    assert(text@.subrange(i as int, i + m) =~= needle@);
    true
}

/// Splits the text at the first place where the needle stands in it.
pub fn split_at_first(text: &str, needle: &str) -> (r: Highlight)
    ensures
        splits(text@, needle@, (r.before@, r.selected@, r.after@)),
{
    let n = text.unicode_len();
    let m = needle.unicode_len();
    if m > 0 && m <= n {
        let mut i: usize = 0;
        while i <= n - m
            invariant
                n == text@.len(),
                m == needle@.len(),
                0 < m <= n,
                forall|j: int| 0 <= j < i ==> !occurs_at(text@, needle@, j),
            decreases n - i,
        {
            if stands_at(text, n, needle, m, i) {
                proof {
                    assert(first_occurrence(text@, needle@, i as int));
                    let k = choose|k: int| first_occurrence(text@, needle@, k);
                    if k < i {
                        assert(!occurs_at(text@, needle@, k));
                    } else if i < k {
                        assert(!occurs_at(text@, needle@, i as int));
                    }
                }
                return Highlight {
                    before: String::from_str(text.substring_char(0, i)),
                    selected: String::from_str(needle),
                    after: String::from_str(text.substring_char(i + m, n)),
                };
            }
            i += 1;
        }
    }
    proof {
        assert forall|k: int| !first_occurrence(text@, needle@, k) || needle@.len() == 0 by {
            if m > 0 && first_occurrence(text@, needle@, k) {
                assert(occurs_at(text@, needle@, k));
            }
        }
        assert(text@.subrange(0, n as int) =~= text@);
    }
    Highlight { before: String::from_str(text), selected: String::new(), after: String::new() }
}

impl DerivationTree {
    /// The text of the clause at the root, split at the first place where
    /// the text of the selected atom stands in it.
    pub fn highlight(&self) -> (r: Highlight)
        ensures
            splits(
                rule_text(self@.root),
                selected_text(self@.selection),
                (r.before@, r.selected@, r.after@),
            ),
    {
        let label = self.root.to_string();
        let selected = match &self.selection {
            Some(Selection::Premise(a, _)) => a.to_string(),
            Some(Selection::Conclusion(a)) => a.to_string(),
            None => String::new(),
        };
        split_at_first(label.as_str(), selected.as_str())
    }
}

} // verus!
