use algolib::additive::IntAdd;
use algolib::persistentsegmenttree::PersistentSegmentTree;

#[test]
fn persistentsegmenttree_sum() {
    let mut seg = PersistentSegmentTree::new(IntAdd, (0..13).collect());
    assert_eq!(seg.prod(1..5), 10);
    assert_eq!(seg.prod(4..10), 39);
    assert_eq!(seg.prod(..), 78);
    let mut seg2 = seg.clone();
    seg2.set(3, 8);
    assert_eq!(seg.prod(1..5), 10);
    assert_eq!(seg.prod(4..10), 39);
    assert_eq!(seg2.prod(1..5), 15);
    assert_eq!(seg2.prod(4..10), 39);
    seg.set(7, -3);
    assert_eq!(seg.prod(1..5), 10);
    assert_eq!(seg.prod(4..10), 29);
    assert_eq!(seg2.prod(1..5), 15);
    assert_eq!(seg2.prod(4..10), 39);
}

#[test]
fn persistent_products_of_all_ranges() {
    for n in 0..36usize {
        let values: Vec<i32> = (0..n as i32).map(|i| 2 * i * i - 9 * i + 1).collect();
        let seg = PersistentSegmentTree::new(IntAdd, values.clone());
        assert_eq!(seg.len(), n);
        for l in 0..=n {
            for r in l..=n {
                let sum: i32 = values[l..r].iter().sum();
                assert_eq!(seg.prod(l..r), sum);
            }
        }
    }
}
