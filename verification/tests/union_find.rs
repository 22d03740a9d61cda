use sniffer::union_find::UnionFind;

#[test]
fn a_new_key_is_its_own_representative() {
    let mut uf = UnionFind::default();
    assert_eq!(uf.find_equivalence(3), None);
    uf.insert(3);
    assert_eq!(uf.find_equivalence(3), Some(3));
    assert_eq!(uf.find_equivalence_mut(7), 7);
    assert_eq!(uf.find_equivalence(7), Some(7));
    assert_eq!(uf.iter(), vec![3, 7]);
    uf.insert(3);
    assert_eq!(uf.iter(), vec![3, 7]);
}

#[test]
fn union_merges_classes() {
    let mut uf = UnionFind::new();
    for k in 0..6 {
        uf.insert(k);
    }
    uf.union(0, 1);
    uf.union(2, 3);
    assert_eq!(uf.find_equivalence(0), uf.find_equivalence(1));
    assert_eq!(uf.find_equivalence(2), uf.find_equivalence(3));
    assert_ne!(uf.find_equivalence(0), uf.find_equivalence(2));
    assert_eq!(uf.find_equivalence(4), Some(4));
    uf.union(1, 3);
    let r = uf.find_equivalence(0);
    for k in 0..4 {
        assert_eq!(uf.find_equivalence(k), r);
    }
    assert_ne!(uf.find_equivalence(5), r);
    // a union of two keys of one class changes nothing
    uf.union(0, 3);
    assert_eq!(uf.find_equivalence(2), r);
}

#[test]
fn union_makes_keys_of_what_it_is_given() {
    let mut uf = UnionFind::new();
    uf.union(10, 20);
    assert_eq!(uf.iter(), vec![10, 20]);
    assert_eq!(uf.find_equivalence(10), uf.find_equivalence(20));
    // with equal ranks the second representative wins
    assert_eq!(uf.find_equivalence(10), Some(20));
}

#[test]
fn path_compression_keeps_representatives() {
    let mut uf = UnionFind::new();
    // a chain: 0 below 1, then that below 3, then that below 7
    uf.union(0, 1);
    uf.union(2, 3);
    uf.union(0, 2);
    uf.union(4, 5);
    uf.union(6, 7);
    uf.union(4, 6);
    uf.union(0, 4);
    let before: Vec<_> = (0..8).map(|k| uf.find_equivalence(k)).collect();
    for k in 0..8 {
        assert_eq!(Some(uf.find_equivalence_mut(k)), before[k]);
    }
    let after: Vec<_> = (0..8).map(|k| uf.find_equivalence(k)).collect();
    assert_eq!(before, after);
}

#[test]
fn the_higher_rank_wins() {
    let mut uf = UnionFind::new();
    uf.union(0, 1); // 1 has rank one now
    uf.union(2, 1);
    assert_eq!(uf.find_equivalence(2), Some(1));
    uf.union(1, 3);
    assert_eq!(uf.find_equivalence(3), Some(1));
    uf.union(4, 5); // 5 has rank one as well
    uf.union(0, 4); // on a tie the second representative wins
    assert_eq!(uf.find_equivalence(0), Some(5));
    assert_eq!(uf.find_equivalence(3), Some(5));
}
