use algolib::unionfind::UnionFind;

#[test]
fn sets_grow_by_union() {
    let mut uf = UnionFind::new(6);
    assert_eq!(uf.len(), 6);
    assert_eq!(uf.count(), 6);
    for i in 0..6 {
        assert_eq!(uf.find(i), i);
        assert_eq!(uf.size(i), 1);
    }
    assert_eq!(uf.union(4, 2), 2);
    assert_eq!(uf.union(5, 4), 2);
    assert_eq!(uf.union(2, 5), 2);
    assert_eq!(uf.count(), 4);
    assert_eq!(uf.union(1, 0), 0);
    assert_eq!(uf.count(), 3);
    assert!(uf.same(5, 2));
    assert!(uf.same_imu(4, 5));
    assert!(!uf.same(0, 2));
    assert!(!uf.same_imu(3, 1));
    assert_eq!(uf.size(4), 3);
    assert_eq!(uf.size_imu(1), 2);
    assert_eq!(uf.size(3), 1);
    assert_eq!(uf.find_imu(5), 2);
    assert_eq!(uf.union(0, 5), 0);
    assert_eq!(uf.find(4), 0);
    assert_eq!(uf.size(2), 5);
    assert_eq!(uf.count(), 2);
    let empty = UnionFind::default();
    assert_eq!(empty.len(), 0);
    assert_eq!(empty.count(), 0);
}
