use algolib::binarytree::BinaryTree;

#[test]
fn binarytree_test() {
    let mut bs = BinaryTree::<i32>::new();
    bs.insert(0, 1);
    bs.insert(0, 2);
    bs.insert(2, 3);
    bs.insert(1, 4);
    bs.insert(3, 5);
    // [2, 4, 1, 5, 3]
    assert_eq!(bs.len(), 5);
    assert_eq!(bs.remove(2), 1);
    assert_eq!(bs.remove(3), 3);
    assert_eq!(bs.remove(0), 2);
    assert_eq!(bs.remove(1), 5);
    assert_eq!(bs.remove(0), 4);
    assert_eq!(bs.len(), 0);
}

#[test]
fn a_thousand_insertions_and_removals() {
    let mut tree = BinaryTree::<u32>::new();
    let mut plain: Vec<u32> = Vec::new();
    assert!(tree.is_empty());
    let mut state = 12345u32;
    for step in 0..1000u32 {
        state = state.wrapping_mul(1103515245).wrapping_add(12345);
        let at = (state >> 8) as usize % (plain.len() + 1);
        tree.insert(at, step);
        plain.insert(at, step);
    }
    assert_eq!(tree.len(), 1000);
    for (i, v) in plain.iter().enumerate() {
        assert_eq!(tree.get(i), v);
    }
    tree.set(500, 7777);
    plain[500] = 7777;
    while !plain.is_empty() {
        state = state.wrapping_mul(1103515245).wrapping_add(12345);
        let at = (state >> 8) as usize % plain.len();
        assert_eq!(tree.remove(at), plain.remove(at));
        assert_eq!(tree.len(), plain.len());
    }
    assert!(tree.is_empty());
}

#[test]
fn always_at_the_front_and_always_at_the_back() {
    let mut front = BinaryTree::<usize>::new();
    let mut back = BinaryTree::<usize>::default();
    for i in 0..200 {
        front.insert(0, i);
        back.insert(i, i);
    }
    for i in 0..200 {
        assert_eq!(*front.get(i), 199 - i);
        assert_eq!(*back.get(i), i);
    }
    for i in 0..200 {
        assert_eq!(front.remove(0), 199 - i);
        assert_eq!(back.remove(back.len() - 1), 199 - i);
    }
}
