use algolib::additive::IntAdd;
use algolib::binaryindexedtree::BinaryIndexedTree;

#[test]
fn binaryindexedtree_add() {
    let mut v = BinaryIndexedTree::new(IntAdd, 10);
    assert_eq!(v.sum(1..5), 0);
    assert_eq!(v.sum(3..9), 0);
    assert_eq!(v.sum(..), 0);
    v.add(2, &12);
    assert_eq!(v.sum(1..5), 12);
    assert_eq!(v.sum(3..9), 0);
    assert_eq!(v.sum(..), 12);
    v.add(4, &3);
    assert_eq!(v.sum(1..5), 15);
    assert_eq!(v.sum(3..9), 3);
    assert_eq!(v.sum(..), 15);
}

#[test]
fn sums_of_all_ranges() {
    let values = [5, -3, 8, 0, 2, 7, -6, 1, 9, 4, 4, -2, 11];
    let mut tree = BinaryIndexedTree::new(IntAdd, values.len());
    assert_eq!(tree.len(), values.len());
    assert!(!tree.is_empty());
    for (i, v) in values.iter().enumerate() {
        tree.add(i, v);
    }
    for l in 0..=values.len() {
        for r in l..=values.len() {
            let sum: i32 = values[l..r].iter().sum();
            assert_eq!(tree.sum(l..r), sum);
        }
    }
    assert_eq!(tree.sum(..=3), 10);
    assert_eq!(tree.sum(11..), 9);
}

#[test]
fn an_empty_tree() {
    let tree = BinaryIndexedTree::new(IntAdd, 0);
    assert!(tree.is_empty());
    assert_eq!(tree.len(), 0);
    assert_eq!(tree.sum(..), 0);
}
