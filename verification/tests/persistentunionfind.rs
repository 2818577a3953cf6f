use algolib::persistentunionfind::PersistentUnionFind;

#[test]
fn a_reference_sees_the_sets_of_its_moment() {
    let mut uf = PersistentUnionFind::new(6);
    assert_eq!(uf.len(), 6);
    let at_start = uf.get_ref();
    uf.union(0, 1);
    uf.union(2, 3);
    let in_pairs = uf.get_ref();
    uf.union(1, 3);
    uf.union(4, 0);
    let joined = uf.get_ref();
    uf.union(5, 5);

    assert_eq!(at_start.len(), 6);
    for i in 0..6 {
        assert_eq!(at_start.find(&uf, i), i);
    }
    assert_eq!(in_pairs.find(&uf, 0), in_pairs.find(&uf, 1));
    assert_eq!(in_pairs.find(&uf, 2), in_pairs.find(&uf, 3));
    assert_ne!(in_pairs.find(&uf, 0), in_pairs.find(&uf, 2));
    assert_eq!(in_pairs.find(&uf, 4), 4);
    let root = joined.find(&uf, 0);
    for i in 0..5 {
        assert_eq!(joined.find(&uf, i), root);
        assert_eq!(uf.find(i), root);
        assert_eq!(uf.size(i), 5);
    }
    assert_eq!(joined.find(&uf, 5), 5);
    assert_eq!(uf.size(5), 1);
}

#[test]
fn the_smaller_set_comes_under_the_larger() {
    let mut uf = PersistentUnionFind::new(5);
    uf.union(0, 1);
    // equal sizes: the set of the first argument is moved
    assert_eq!(uf.find(0), 1);
    uf.union(2, 1);
    assert_eq!(uf.find(2), 1);
    uf.union(1, 3);
    assert_eq!(uf.find(3), 1);
    assert_eq!(uf.size(3), 4);
    assert_eq!(uf.find(4), 4);
}

#[test]
fn a_clone_starts_a_life_of_its_own() {
    let mut uf = PersistentUnionFind::new(4);
    uf.union(0, 1);
    let before = uf.get_ref();
    let mut copy = uf.clone();
    copy.union(2, 3);
    copy.union(0, 3);
    assert_eq!(copy.size(1), 4);
    assert_eq!(uf.size(1), 2);
    assert_eq!(uf.find(2), 2);
    assert_eq!(before.find(&uf, 0), uf.find(1));
    let later = copy.get_ref();
    assert_eq!(later.find(&copy, 2), copy.find(0));
}
