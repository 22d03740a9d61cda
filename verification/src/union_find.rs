//! Disjoint sets of keys, as a forest with path compression and union by
//! rank.
use vstd::prelude::*;
use std::collections::HashMap;

verus! {

/// What the forest holds for a key: its parent, if it is not a root, and
/// its rank.
#[derive(Clone, Copy, Debug)]
pub struct NodeInfo {
    pub parent: Option<usize>,
    pub rank: usize,
}

/// The forest: each key with its node.
pub type Forest = Map<usize, NodeInfo>;

/// Every parent is a key, and nearer to the root than its child.
pub open spec fn forest_wf(f: Forest, dist: spec_fn(usize) -> nat) -> bool {
    forall|x: usize| #[trigger]
        f.dom().contains(x) ==> match f[x].parent {
            Some(p) => f.dom().contains(p) && dist(p) < dist(x),
            None => true,
        }
}

/// The root of the tree that holds the key `x`.
pub open spec fn root_of(f: Forest, dist: spec_fn(usize) -> nat, x: usize) -> usize
    decreases dist(x),
    when forest_wf(f, dist) && f.dom().contains(x)
{
    match f[x].parent {
        Some(p) => root_of(f, dist, p),
        None => x,
    }
}

/// The representative of each key.
pub open spec fn representatives(f: Forest, dist: spec_fn(usize) -> nat) -> Map<usize, usize> {
    Map::new(|x: usize| f.dom().contains(x), |x: usize| root_of(f, dist, x))
}

/// The root of a key is a key without parent, no farther from the root
/// than the key, and its own root.
pub proof fn lemma_root(f: Forest, dist: spec_fn(usize) -> nat, x: usize)
    requires
        forest_wf(f, dist),
        f.dom().contains(x),
    ensures
        f.dom().contains(root_of(f, dist, x)),
        f[root_of(f, dist, x)].parent is None,
        dist(root_of(f, dist, x)) <= dist(x),
        root_of(f, dist, root_of(f, dist, x)) == root_of(f, dist, x),
        root_of(f, dist, x) != x ==> dist(root_of(f, dist, x)) < dist(x),
    decreases dist(x),
{
    match f[x].parent {
        Some(p) => {
            lemma_root(f, dist, p);
        },
        None => {},
    }
}

/// A forest that only gained keys, or changed ranks, has the roots it had.
pub proof fn lemma_same_parents(f: Forest, dist: spec_fn(usize) -> nat, g: Forest, k: usize)
    requires
        forest_wf(f, dist),
        forest_wf(g, dist),
        f.dom().contains(k),
        forall|x: usize| f.dom().contains(x) ==> g.dom().contains(x) && g[x].parent == f[x].parent,
    ensures
        root_of(g, dist, k) == root_of(f, dist, k),
    decreases dist(k),
{
    match f[k].parent {
        Some(p) => {
            lemma_same_parents(f, dist, g, p);
        },
        None => {},
    }
}

/// The forest in which the key `n` hangs directly below its root.
pub open spec fn compressed(f: Forest, n: usize, r: usize) -> Forest {
    f.insert(n, NodeInfo { parent: Some(r), rank: f[n].rank })
}

/// Path compression keeps the forest well formed.
pub proof fn lemma_compressed_wf(f: Forest, dist: spec_fn(usize) -> nat, n: usize)
    requires
        forest_wf(f, dist),
        f.dom().contains(n),
        root_of(f, dist, n) != n,
    ensures
        forest_wf(compressed(f, n, root_of(f, dist, n)), dist),
{
    lemma_root(f, dist, n);
    let g = compressed(f, n, root_of(f, dist, n));
    assert forall|x: usize| #[trigger] g.dom().contains(x) implies match g[x].parent {
        Some(p) => g.dom().contains(p) && dist(p) < dist(x),
        None => true,
    } by {
        if x != n {
            assert(f.dom().contains(x));
        }
    }
}

/// Path compression preserves representatives.
pub proof fn lemma_compressed_root(f: Forest, dist: spec_fn(usize) -> nat, n: usize, k: usize)
    requires
        forest_wf(f, dist),
        f.dom().contains(n),
        f.dom().contains(k),
        root_of(f, dist, n) != n,
    ensures
        root_of(compressed(f, n, root_of(f, dist, n)), dist, k) == root_of(f, dist, k),
    decreases dist(k),
{
    let r = root_of(f, dist, n);
    let g = compressed(f, n, r);
    lemma_compressed_wf(f, dist, n);
    lemma_root(f, dist, n);
    if k == n {
        assert(g[n].parent == Some(r));
        assert(g[r].parent is None);
        assert(root_of(g, dist, r) == r);
    } else {
        match f[k].parent {
            Some(p) => {
                lemma_compressed_root(f, dist, n, p);
            },
            None => {},
        }
    }
}

/// The forest in which the root `a` hangs below the root `b`.
pub open spec fn linked(f: Forest, a: usize, b: usize) -> Forest {
    f.insert(a, NodeInfo { parent: Some(b), rank: f[a].rank })
}

/// The distances after the tree of `a` was hung below `b`.
pub open spec fn linked_dist(f: Forest, dist: spec_fn(usize) -> nat, a: usize, b: usize) -> spec_fn(
    usize,
) -> nat {
    |k: usize|
        if f.dom().contains(k) && root_of(f, dist, k) == a {
            dist(k) + dist(b) + 1
        } else {
            dist(k)
        }
}

/// Hanging one root below another keeps the forest well formed.
pub proof fn lemma_linked_wf(f: Forest, dist: spec_fn(usize) -> nat, a: usize, b: usize)
    requires
        forest_wf(f, dist),
        f.dom().contains(a),
        f.dom().contains(b),
        f[a].parent is None,
        f[b].parent is None,
        a != b,
    ensures
        forest_wf(linked(f, a, b), linked_dist(f, dist, a, b)),
{
    let g = linked(f, a, b);
    let d2 = linked_dist(f, dist, a, b);
    assert forall|x: usize| #[trigger] g.dom().contains(x) implies match g[x].parent {
        Some(p) => g.dom().contains(p) && d2(p) < d2(x),
        None => true,
    } by {
        assert(f.dom().contains(x));
        if x == a {
            assert(root_of(f, dist, b) == b);
            assert(root_of(f, dist, a) == a);
        } else {
            match f[x].parent {
                Some(p) => {
                    assert(root_of(f, dist, x) == root_of(f, dist, p));
                },
                None => {},
            }
        }
    }
}

/// After the root `a` was hung below the root `b`, the keys of the tree of
/// `a` have the root `b`, and every other key has the root it had.
pub proof fn lemma_linked_root(f: Forest, dist: spec_fn(usize) -> nat, a: usize, b: usize, k: usize)
    requires
        forest_wf(f, dist),
        f.dom().contains(a),
        f.dom().contains(b),
        f.dom().contains(k),
        f[a].parent is None,
        f[b].parent is None,
        a != b,
    ensures
        root_of(linked(f, a, b), linked_dist(f, dist, a, b), k) == (if root_of(f, dist, k) == a {
            b
        } else {
            root_of(f, dist, k)
        }),
    decreases dist(k),
{
    let g = linked(f, a, b);
    let d2 = linked_dist(f, dist, a, b);
    lemma_linked_wf(f, dist, a, b);
    if k == a {
        assert(g[a].parent == Some(b));
        assert(g[b].parent is None);
        assert(root_of(g, d2, b) == b);
        assert(root_of(g, d2, a) == root_of(g, d2, b));
        assert(root_of(f, dist, a) == a);
    } else {
        match f[k].parent {
            Some(p) => {
                lemma_linked_root(f, dist, a, b, p);
                assert(g[k].parent == Some(p));
                assert(root_of(g, d2, k) == root_of(g, d2, p));
            },
            None => {
                assert(g[k].parent is None);
            },
        }
    }
}

/// The representatives after the class of `loser` was merged into that
/// of `winner`.
pub open spec fn merged(m: Map<usize, usize>, loser: usize, winner: usize) -> Map<usize, usize> {
    Map::new(
        |k: usize| m.dom().contains(k),
        |k: usize|
            if m[k] == loser {
                winner
            } else {
                m[k]
            },
    )
}

/// The representatives with the key `x` known: a new key is a class of
/// its own.
pub open spec fn with_key(m: Map<usize, usize>, x: usize) -> Map<usize, usize> {
    if m.dom().contains(x) {
        m
    } else {
        m.insert(x, x)
    }
}

/// The order of the keys with the key `x` known: a new key comes last.
pub open spec fn with_last(keys: Seq<usize>, x: usize) -> Seq<usize> {
    if keys.contains(x) {
        keys
    } else {
        keys.push(x)
    }
}

/// The ranks with the key `x` known: a new key has rank zero.
pub open spec fn with_rank(r: Map<usize, usize>, x: usize) -> Map<usize, usize> {
    if r.dom().contains(x) {
        r
    } else {
        r.insert(x, 0)
    }
}

/// The ranks after the classes of two distinct representatives were
/// merged: where both had the same rank, that of the second goes up by
/// one, unless it is the largest number.
pub open spec fn merged_ranks(r: Map<usize, usize>, first: usize, second: usize) -> Map<usize, usize> {
    if r[first] == r[second] && r[second] < usize::MAX {
        r.insert(second, (r[second] + 1) as usize)
    } else {
        r
    }
}

/// The representatives and the ranks after the classes of `x` and `y`
/// were merged: both become keys if they are none; if their
/// representatives differ, the one of higher rank then represents both
/// classes, the second on a tie.
pub open spec fn united(m: Map<usize, usize>, r: Map<usize, usize>, x: usize, y: usize) -> (
    Map<usize, usize>,
    Map<usize, usize>,
) {
    let m2 = with_key(with_key(m, x), y);
    let r2 = with_rank(with_rank(r, x), y);
    if m2[x] == m2[y] {
        (m2, r2)
    } else if r2[m2[x]] > r2[m2[y]] {
        (merged(m2, m2[y], m2[x]), r2)
    } else {
        (merged(m2, m2[x], m2[y]), merged_ranks(r2, m2[x], m2[y]))
    }
}

/// The representatives and the ranks after the pairs were merged one after
/// the other, from no key at all.
pub open spec fn united_all(pairs: Seq<(usize, usize)>) -> (Map<usize, usize>, Map<usize, usize>)
    decreases pairs.len(),
{
    if pairs.len() == 0 {
        (Map::empty(), Map::empty())
    } else {
        let before = united_all(pairs.drop_last());
        united(before.0, before.1, pairs.last().0, pairs.last().1)
    }
}

/// Whether the merges of the pairs put `a` and `b` into one class: they
/// are the same, or the last merge joined their classes.
pub open spec fn same_class(pairs: Seq<(usize, usize)>, a: usize, b: usize) -> bool
    decreases pairs.len(),
{
    if pairs.len() == 0 {
        a == b
    } else {
        let before = pairs.drop_last();
        let x = pairs.last().0;
        let y = pairs.last().1;
        same_class(before, a, b) || (same_class(before, a, x) && same_class(before, y, b)) || (
        same_class(before, a, y) && same_class(before, x, b))
    }
}

/// The representative of anything: that of a key, and itself otherwise.
pub open spec fn representative(m: Map<usize, usize>, a: usize) -> usize {
    if m.dom().contains(a) {
        m[a]
    } else {
        a
    }
}

/// Every representative is a key.
pub open spec fn closed_under(m: Map<usize, usize>) -> bool {
    forall|k: usize| #[trigger] m.dom().contains(k) ==> m.dom().contains(m[k])
}

/// After any sequence of merges, two things have the same representative
/// exactly if the merges put them into one class.
pub proof fn lemma_classes(pairs: Seq<(usize, usize)>, a: usize, b: usize)
    ensures
        closed_under(united_all(pairs).0),
        representative(united_all(pairs).0, a) == representative(united_all(pairs).0, b)
            <==> same_class(pairs, a, b),
    decreases pairs.len(),
{
    if pairs.len() > 0 {
        let before = pairs.drop_last();
        let x = pairs.last().0;
        let y = pairs.last().1;
        let m = united_all(before).0;
        lemma_classes(before, a, b);
        lemma_classes(before, a, x);
        lemma_classes(before, a, y);
        lemma_classes(before, x, b);
        lemma_classes(before, y, b);
        lemma_classes(before, x, y);
        let m2 = with_key(with_key(m, x), y);
        assert(closed_under(m2));
        assert(representative(m2, a) == representative(m, a));
        assert(representative(m2, b) == representative(m, b));
        assert(m2[x] == representative(m, x));
        assert(m2[y] == representative(m, y));
        let end = united_all(pairs).0;
        assert(closed_under(end));
    }
}

/// Disjoint sets of keys. Its model maps each key to the representative
/// of its class.
pub struct UnionFind {
    nodes: HashMap<usize, NodeInfo>,
    keys: Vec<usize>,
    dist: Ghost<spec_fn(usize) -> nat>,
}

impl View for UnionFind {
    type V = Map<usize, usize>;

    closed spec fn view(&self) -> Map<usize, usize> {
        representatives(self.nodes@, self.dist@)
    }
}

impl UnionFind {
    /// The keys in the order in which they became keys.
    pub closed spec fn order(&self) -> Seq<usize> {
        self.keys@
    }

    /// The rank of each key.
    pub closed spec fn ranks(&self) -> Map<usize, usize> {
        Map::new(|x: usize| self.nodes@.dom().contains(x), |x: usize| self.nodes@[x].rank)
    }

    /// The forest is well formed, and the list of keys holds each key once.
    pub closed spec fn wf(&self) -> bool {
        &&& forest_wf(self.nodes@, self.dist@)
        &&& forall|i: int, j: int| 0 <= i < j < self.keys.len() ==> self.keys[i] != self.keys[j]
        &&& forall|x: usize| self.nodes@.dom().contains(x) <==> self.keys@.contains(x)
    }

    /// Every representative is a key and represents itself.
    pub proof fn lemma_representatives(&self)
        requires
            self.wf(),
        ensures
            forall|x: usize| #[trigger]
                self@.dom().contains(x) ==> self@.dom().contains(self@[x]) && self@[self@[x]]
                    == self@[x],
    {
        assert forall|x: usize| #[trigger] self@.dom().contains(x) implies self@.dom().contains(
            self@[x],
        ) && self@[self@[x]] == self@[x] by {
            lemma_root(self.nodes@, self.dist@, x);
        }
    }

    /// The structure that holds no key.
    pub fn new() -> (r: UnionFind)
        ensures
            r.wf(),
            r@ == Map::<usize, usize>::empty(),
            r.ranks() == Map::<usize, usize>::empty(),
            r.order() == Seq::<usize>::empty(),
    {
        let r = UnionFind { nodes: HashMap::new(), keys: Vec::new(), dist: Ghost(|k: usize| 0nat) };
        assert(r@ =~= Map::<usize, usize>::empty());
        assert(r.ranks() =~= Map::<usize, usize>::empty());
        r
    }

    /// Makes `value` a key, in a class of its own, unless it is one.
    pub fn insert(&mut self, value: usize)
        requires
            old(self).wf(),
        ensures
            final(self).wf(),
            final(self)@ == with_key(old(self)@, value),
            final(self).ranks() == with_rank(old(self).ranks(), value),
            final(self).order() == with_last(old(self).order(), value),
    {
        proof {
            assert(self.ranks() =~= with_rank(self.ranks(), value) || !self.nodes@.dom().contains(
                value,
            ));
        }
        if !self.nodes.contains_key(&value) {
            let ghost f = self.nodes@;
            self.nodes.insert(value, NodeInfo { parent: None, rank: 0 });
            let ghost ks = self.keys@;
            self.keys.push(value);
            proof {
                let g = self.nodes@;
                let dist = self.dist@;
                assert(forest_wf(g, dist)) by {
                    assert forall|x: usize| #[trigger] g.dom().contains(x) implies match g[x].parent {
                        Some(p) => g.dom().contains(p) && dist(p) < dist(x),
                        None => true,
                    } by {
                        if x != value {
                            assert(f.dom().contains(x));
                        }
                    }
                }
                assert forall|x: usize| g.dom().contains(x) <==> self.keys@.contains(x) by {
                    if ks.contains(x) {
                        let i = choose|i: int| 0 <= i < ks.len() && ks[i] == x;
                        assert(self.keys@[i] == x);
                    }
                    if x == value {
                        assert(self.keys@[ks.len() as int] == x);
                    }
                    if self.keys@.contains(x) && x != value {
                        let i = choose|i: int| 0 <= i < self.keys@.len() && self.keys@[i] == x;
                        assert(ks[i] == x);
                    }
                }
                assert forall|i: int, j: int| 0 <= i < j < self.keys.len() implies self.keys[i]
                    != self.keys[j] by {
                    if j == ks.len() {
                        assert(ks[i] == self.keys[i]);
                        assert(ks.contains(ks[i]));
                    } else {
                        assert(ks[i] != ks[j]);
                    }
                }
                assert forall|k: usize| f.dom().contains(k) implies root_of(g, dist, k) == root_of(
                    f,
                    dist,
                    k,
                ) by {
                    lemma_same_parents(f, dist, g, k);
                }
                assert(root_of(g, dist, value) == value);
                assert(self@ =~= with_key(old(self)@, value));
                assert(self.ranks() =~= with_rank(old(self).ranks(), value));
            }
        }
    }

    /// The representative of the class of `value`, or `None` if `value`
    /// is no key.
    pub fn find_equivalence(&self, value: usize) -> (r: Option<usize>)
        requires
            self.wf(),
        ensures
            r == (if self@.dom().contains(value) {
                Some(self@[value])
            } else {
                None
            }),
    {
        if !self.nodes.contains_key(&value) {
            return None;
        }
        let mut cur = value;
        loop
            invariant
                self.wf(),
                self.nodes@.dom().contains(cur),
                self.nodes@.dom().contains(value),
                root_of(self.nodes@, self.dist@, cur) == root_of(self.nodes@, self.dist@, value),
            decreases (self.dist@)(cur),
        {
            let info = self.nodes.get(&cur);
            match info {
                Some(node) => match node.parent {
                    Some(p) => {
                        cur = p;
                    },
                    None => {
                        return Some(cur);
                    },
                },
                None => {
                    return None;
                },
            }
        }
    }

    /// The representative of the class of `value`, which becomes a key
    /// if it is none. The keys on the way to the representative then
    /// hang directly below it; no representative changes.
    pub fn find_equivalence_mut(&mut self, value: usize) -> (r: usize)
        requires
            old(self).wf(),
        ensures
            final(self).wf(),
            final(self)@ == with_key(old(self)@, value),
            final(self).ranks() == with_rank(old(self).ranks(), value),
            final(self).order() == with_last(old(self).order(), value),
            r == final(self)@[value],
    {
        if !self.nodes.contains_key(&value) {
            self.insert(value);
            return value;
        }
        let mut path: Vec<usize> = Vec::new();
        let mut cur = value;
        loop
            invariant_except_break
                self.wf(),
                self.nodes@ == old(self).nodes@,
                self.dist@ == old(self).dist@,
                self.keys@ == old(self).keys@,
                self.nodes@.dom().contains(cur),
                self.nodes@.dom().contains(value),
                root_of(self.nodes@, self.dist@, cur) == root_of(self.nodes@, self.dist@, value),
                forall|i: int|
                    0 <= i < path.len() ==> self.nodes@.dom().contains(#[trigger] path[i])
                        && root_of(self.nodes@, self.dist@, path[i]) == root_of(
                        self.nodes@,
                        self.dist@,
                        value,
                    ) && self.nodes@[path[i]].parent is Some,
            ensures
                self.wf(),
                self.nodes@ == old(self).nodes@,
                self.dist@ == old(self).dist@,
                self.keys@ == old(self).keys@,
                self.nodes@.dom().contains(value),
                cur == root_of(self.nodes@, self.dist@, value),
                forall|i: int|
                    0 <= i < path.len() ==> self.nodes@.dom().contains(#[trigger] path[i])
                        && root_of(self.nodes@, self.dist@, path[i]) == cur
                        && self.nodes@[path[i]].parent is Some,
            decreases (self.dist@)(cur),
        {
            let info = self.nodes.get(&cur);
            match info {
                Some(node) => match node.parent {
                    Some(p) => {
                        path.push(cur);
                        cur = p;
                    },
                    None => {
                        break;
                    },
                },
                None => {
                    break;
                },
            }
        }
        let ghost f0 = self.nodes@;
        let ghost dist = self.dist@;
        let mut i: usize = 0;
        while i < path.len()
            invariant
                i <= path.len(),
                self.wf(),
                self.dist@ == dist,
                self.keys@ == old(self).keys@,
                self.nodes@.dom() == f0.dom(),
                f0.dom().contains(value),
                forest_wf(f0, dist),
                cur == root_of(f0, dist, value),
                forall|k: usize| f0.dom().contains(k) ==> root_of(self.nodes@, dist, k) == root_of(
                    f0,
                    dist,
                    k,
                ),
                forall|k: usize| f0.dom().contains(k) ==> (#[trigger] self.nodes@[k]).rank
                    == f0[k].rank,
                forall|j: int|
                    0 <= j < path.len() ==> f0.dom().contains(#[trigger] path[j]) && root_of(
                        f0,
                        dist,
                        path[j],
                    ) == cur && f0[path[j]].parent is Some,
            decreases path.len() - i,
        {
            let n = path[i];
            let ghost f = self.nodes@;
            proof {
                lemma_root(f0, dist, n);
                assert(root_of(f, dist, n) == cur);
                assert(cur != n);
            }
            let rank = match self.nodes.get(&n) {
                Some(node) => node.rank,
                None => 0,
            };
            self.nodes.insert(n, NodeInfo { parent: Some(cur), rank });
            proof {
                assert(self.nodes@ =~= compressed(f, n, cur));
                lemma_compressed_wf(f, dist, n);
                assert forall|k: usize| f0.dom().contains(k) implies root_of(self.nodes@, dist, k)
                    == root_of(f0, dist, k) by {
                    lemma_compressed_root(f, dist, n, k);
                }
                assert(self.nodes@.dom() =~= f0.dom());
            }
            i += 1;
        }
        proof {
            assert(self@ =~= old(self)@);
            assert(self.ranks() =~= old(self).ranks());
        }
        cur
    }

    /// Merges the classes of `x` and `y`, which become keys if they are
    /// none: one of the two representatives then represents both classes.
    pub fn union(&mut self, x: usize, y: usize)
        requires
            old(self).wf(),
        ensures
            final(self).wf(),
            final(self).order() == with_last(with_last(old(self).order(), x), y),
            (final(self)@, final(self).ranks()) == united(old(self)@, old(self).ranks(), x, y),
    {
        let x_root = self.find_equivalence_mut(x);
        let ghost m1 = self@;
        let y_root = self.find_equivalence_mut(y);
        let ghost m = self@;
        let ghost rk = self.ranks();
        proof {
            assert(m1.dom().contains(x));
            assert(m[x] == x_root);
            assert(m[y] == y_root);
        }
        let ghost f = self.nodes@;
        let ghost dist = self.dist@;
        proof {
            assert(m.dom().contains(x));
            assert(m.dom().contains(y));
            assert(f.dom().contains(x));
            assert(f.dom().contains(y));
            lemma_root(f, dist, x);
            lemma_root(f, dist, y);
        }
        if x_root != y_root {
            let x_rank = match self.nodes.get(&x_root) {
                Some(node) => node.rank,
                None => 0,
            };
            let y_rank = match self.nodes.get(&y_root) {
                Some(node) => node.rank,
                None => 0,
            };
            if x_rank > y_rank {
                self.nodes.insert(y_root, NodeInfo { parent: Some(x_root), rank: y_rank });
                proof {
                    self.dist = Ghost(linked_dist(f, dist, y_root, x_root));
                    assert(self.nodes@ =~= linked(f, y_root, x_root));
                    lemma_linked_wf(f, dist, y_root, x_root);
                    assert forall|k: usize| f.dom().contains(k) implies root_of(
                        self.nodes@,
                        self.dist@,
                        k,
                    ) == (if root_of(f, dist, k) == y_root {
                        x_root
                    } else {
                        root_of(f, dist, k)
                    }) by {
                        lemma_linked_root(f, dist, y_root, x_root, k);
                    }
                    assert(self.nodes@.dom() =~= f.dom());
                    assert(self@ =~= merged(m, y_root, x_root));
                    assert(self.ranks() =~= rk);
                }
            } else {
                self.nodes.insert(x_root, NodeInfo { parent: Some(y_root), rank: x_rank });
                let ghost g = self.nodes@;
                let ghost d2 = linked_dist(f, dist, x_root, y_root);
                proof {
                    self.dist = Ghost(d2);
                    assert(g =~= linked(f, x_root, y_root));
                    lemma_linked_wf(f, dist, x_root, y_root);
                    assert forall|k: usize| f.dom().contains(k) implies root_of(g, d2, k) == (
                    if root_of(f, dist, k) == x_root {
                        y_root
                    } else {
                        root_of(f, dist, k)
                    }) by {
                        lemma_linked_root(f, dist, x_root, y_root, k);
                    }
                    assert(g.dom() =~= f.dom());
                }
                if x_rank == y_rank && y_rank < usize::MAX {
                    self.nodes.insert(y_root, NodeInfo { parent: None, rank: y_rank + 1 });
                    proof {
                        let h = self.nodes@;
                        assert(forest_wf(h, d2)) by {
                            assert forall|z: usize| #[trigger] h.dom().contains(z) implies match h[z].parent {
                                Some(p) => h.dom().contains(p) && d2(p) < d2(z),
                                None => true,
                            } by {
                                if z != y_root {
                                    assert(g.dom().contains(z));
                                }
                            }
                        }
                        assert forall|k: usize| g.dom().contains(k) implies root_of(h, d2, k)
                            == root_of(g, d2, k) by {
                            lemma_same_parents(g, d2, h, k);
                        }
                        assert(h.dom() =~= f.dom());
                    }
                }
                proof {
                    assert(self@ =~= merged(m, x_root, y_root));
                    assert(self.ranks() =~= merged_ranks(rk, x_root, y_root));
                }
            }
        } else {
            proof {
                assert(self@ =~= m);
            }
        }
    }

    /// The keys, each once, in the order in which they became keys.
    pub fn iter(&self) -> (r: Vec<usize>)
        requires
            self.wf(),
        ensures
            r@ == self.order(),
            forall|x: usize| r@.contains(x) <==> self@.dom().contains(x),
            forall|i: int, j: int| 0 <= i < j < r.len() ==> r[i] != r[j],
    {
        let mut out: Vec<usize> = Vec::new();
        let mut i: usize = 0;
        while i < self.keys.len()
            invariant
                i <= self.keys.len(),
                out@ == self.keys@.subrange(0, i as int),
            decreases self.keys.len() - i,
        {
            out.push(self.keys[i]);
            assert(out@ =~= self.keys@.subrange(0, i as int + 1));
            i += 1;
        }
        assert(out@ =~= self.keys@);
        out
    }
}

impl Default for UnionFind {
    fn default() -> (r: Self)
        ensures
            r.wf(),
            r@ == Map::<usize, usize>::empty(),
            r.ranks() == Map::<usize, usize>::empty(),
            r.order() == Seq::<usize>::empty(),
    {
        UnionFind::new()
    }
}

/// After a merge, two keys have the same representative exactly if they
/// had it before, or each of them was in one of the two merged classes.
pub proof fn lemma_merged_classes(m: Map<usize, usize>, loser: usize, winner: usize, a: usize, b: usize)
    requires
        m.dom().contains(a),
        m.dom().contains(b),
    ensures
        merged(m, loser, winner)[a] == merged(m, loser, winner)[b] <==> (m[a] == m[b] || ((m[a]
            == loser || m[a] == winner) && (m[b] == loser || m[b] == winner))),
{
}

} // verus!
