use algolib::additive::IntAdd;
use algolib::weightedunionfind::{Diff, WeightedUnionFind};

#[test]
fn diff() {
    let mut wuf = WeightedUnionFind::new(IntAdd, 4);
    wuf.union(1, 0, &9);
    assert_eq!(wuf.diff(0, 2), Diff::Unconnected);
    wuf.union(1, 2, &15);
    assert_eq!(wuf.diff(2, 0), Diff::Connected(-6));
    wuf.union(0, 2, &6);
    assert_eq!(wuf.diff(2, 0), Diff::Connected(-6));
    wuf.union(1, 3, &5);
    wuf.union(2, 3, &8);
    assert_eq!(wuf.diff(2, 0), Diff::Invaild);
}

#[test]
fn differences_along_a_chain() {
    let n = 40;
    let mut wuf = WeightedUnionFind::new(IntAdd, n);
    assert_eq!(wuf.len(), n);
    assert!(!wuf.is_empty());
    // element i stands 3 * i above element 0
    for i in (1..n).rev() {
        wuf.union(i, i - 1, &3);
    }
    for a in 0..n {
        for b in 0..n {
            let expected = 3 * (a as i32 - b as i32);
            assert_eq!(wuf.diff_imu(a, b), Diff::Connected(expected));
            assert_eq!(wuf.diff(a, b), Diff::Connected(expected));
        }
    }
    let root = wuf.find(17);
    for a in 0..n {
        assert_eq!(wuf.find(a), root);
        assert_eq!(wuf.find_imu(a), root);
        assert_eq!(wuf.size(a), n);
        assert_eq!(wuf.size_imu(a), n);
    }
}

#[test]
fn sets_stay_apart_until_joined() {
    let mut wuf = WeightedUnionFind::new(IntAdd, 6);
    wuf.union(0, 1, &1);
    wuf.union(2, 3, &10);
    wuf.union(4, 5, &100);
    assert_eq!(wuf.diff(0, 2), Diff::Unconnected);
    assert_eq!(wuf.diff(3, 4), Diff::Unconnected);
    assert_eq!(wuf.size(0), 2);
    wuf.union(1, 2, &1000);
    // 0 = 1 + 1, 1 = 2 + 1000, 2 = 3 + 10
    assert_eq!(wuf.diff(0, 3), Diff::Connected(1011));
    assert_eq!(wuf.diff(3, 0), Diff::Connected(-1011));
    assert_eq!(wuf.size(3), 4);
    assert_eq!(wuf.diff(5, 0), Diff::Unconnected);
    // a contradiction spoils one set only
    wuf.union(0, 3, &7);
    assert_eq!(wuf.diff(0, 1), Diff::Invaild);
    assert_eq!(wuf.diff(4, 5), Diff::Connected(100));
}
