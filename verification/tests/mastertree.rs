use algolib::additive::AddSum;
use algolib::mastertree::{Mark, MasterTree, Rng};

fn build(values: &[i32]) -> MasterTree<AddSum> {
    let mut mt = MasterTree::<AddSum>::new();
    for (i, &v) in values.iter().enumerate() {
        mt.insert(i, v);
    }
    mt
}

#[test]
fn add_sum() {
    let mut rng = Rng::new();
    // a thousand different streams of coin flips
    for _ in 0..1000 {
        let mut mt = MasterTree::<AddSum>::with_rng(rng.make());

        mt.insert(0, 3);
        mt.insert(0, 1);
        mt.insert(0, 4);
        mt.insert(0, 1);
        mt.insert(0, 5);
        mt.insert(0, 9);
        mt.insert(0, 2);
        mt.insert(0, 6);
        mt.insert(0, 5);
        mt.insert(0, 3);
        mt.insert(0, 5);
        mt.insert(0, 8);
        mt.insert(0, 9);
        mt.insert(0, 7);
        mt.insert(0, 9);
        mt.insert(0, 3);
        // [3, 9, 7, 9, 8, 5, 3, 5, 6, 2, 9, 5, 1, 4, 1, 3]
        mt.reverse();
        // [3, 1, 4, 1, 5, 9, 2, 6, 5, 3, 5, 8, 9, 7, 9, 3]
        assert_eq!(mt.prod(4..12), 43);
        assert_eq!(mt.prod(5..), 66);
        mt.apply(7..12, &20);
        // [3, 1, 4, 1, 5, 9, 2, 26, 25, 23, 25, 28, 9, 7, 9, 3]
        mt.apply(.., &40);
        // [43, 41, 44, 41, 45, 49, 42, 66, 65, 63, 65, 68, 49, 47, 49, 43]
        assert_eq!(mt.prod(4..12), 463);
        assert_eq!(mt.prod(5..), 606);

        // mt2 = [43, 41, 44, 41, 45, 49, 42, 66, 65]
        // mt3 = [63, 65, 68, 49, 47, 49, 43]
        let (mut mt2, mut mt3) = mt.split(9);
        assert_eq!(mt2.prod(3..6), 135);
        assert_eq!(mt3.prod(..5), 292);

        // mt = [63, 65, 68, 49, 47, 49, 43, 43, 41, 44, 41, 45, 49, 42, 66, 65]
        let mut mt = mt3.merge(mt2);
        let hand_calculation = [
            63, 65, 68, 49, 47, 49, 43, 43, 41, 44, 41, 45, 49, 42, 66, 65,
        ];
        for (i, &v) in hand_calculation.iter().enumerate() {
            assert_eq!(mt.get(i), v);
        }
    }
}

#[test]
fn insert_keeps_the_order_of_insertion() {
    let mut mt = MasterTree::<AddSum>::new();
    let mut expected: Vec<i32> = Vec::new();
    let places = [0usize, 0, 1, 3, 2, 0, 6, 4, 4, 9, 1, 11];
    for (k, &at) in places.iter().enumerate() {
        let v = 10 * k as i32 + 1;
        mt.insert(at, v);
        expected.insert(at, v);
        assert_eq!(mt.len(), expected.len());
        assert_eq!(mt.iter(), expected);
    }
    for (i, &v) in expected.iter().enumerate() {
        assert_eq!(mt.get(i), v);
    }
}

#[test]
fn remove_returns_the_element_and_shrinks_by_one() {
    let values = [5, 8, 13, 21, 34, 55, 89, 144, 233];
    let mut mt = build(&values);
    let mut expected = values.to_vec();
    for at in [4usize, 0, 6, 2, 2, 0, 1, 1, 0] {
        let before = mt.len();
        assert_eq!(mt.remove(at), expected.remove(at));
        assert_eq!(mt.len(), before - 1);
        assert_eq!(mt.iter(), expected);
    }
    assert_eq!(mt.len(), 0);
    assert_eq!(mt.iter(), Vec::<i32>::new());
    assert_eq!(mt.prod(..), 0);
}

#[test]
fn remove_after_reverse_and_apply() {
    let mut mt = build(&[1, 2, 3, 4, 5, 6, 7]);
    mt.reverse();
    mt.apply(2..5, &10);
    // [7, 6, 15, 14, 13, 2, 1]
    assert_eq!(mt.remove(3), 14);
    assert_eq!(mt.remove(5), 1);
    assert_eq!(mt.remove(0), 7);
    assert_eq!(mt.iter(), vec![6, 15, 13, 2]);
    assert_eq!(mt.prod(1..3), 28);
}

#[test]
fn split_then_merge_restores_the_sequence() {
    let values = [2, 7, 1, 8, 2, 8, 1, 8, 2, 8, 4];
    for i in 0..=values.len() {
        let mut whole = build(&values);
        let (mut left, mut right) = whole.clone().split(i);
        assert_eq!(left.len(), i);
        assert_eq!(right.len(), values.len() - i);
        assert_eq!(left.iter(), values[..i].to_vec());
        assert_eq!(right.iter(), values[i..].to_vec());
        let mut joined = left.merge(right);
        assert_eq!(joined.iter(), values.to_vec());
        for l in 0..=values.len() {
            for r in l..=values.len() {
                assert_eq!(joined.prod(l..r), whole.prod(l..r));
            }
        }
    }
}

#[test]
fn split_at_the_ends_gives_an_empty_side() {
    let values = [4, 5, 6];
    let (mut l, mut r) = build(&values).split(0);
    assert_eq!(l.len(), 0);
    assert_eq!(l.iter(), Vec::<i32>::new());
    assert_eq!(r.iter(), values.to_vec());
    let (mut l, mut r) = build(&values).split(3);
    assert_eq!(l.iter(), values.to_vec());
    assert_eq!(r.len(), 0);
    assert_eq!(r.iter(), Vec::<i32>::new());
    let (l, r) = MasterTree::<AddSum>::new().split(0);
    assert_eq!(l.len(), 0);
    assert_eq!(r.len(), 0);
}

#[test]
fn merge_with_an_empty_tree() {
    let mut a = build(&[1, 2]).merge(MasterTree::new());
    assert_eq!(a.iter(), vec![1, 2]);
    let mut b = MasterTree::new().merge(build(&[3, 4]));
    assert_eq!(b.iter(), vec![3, 4]);
}

#[test]
fn reverse_twice_is_the_identity() {
    let values = [9, 8, 7, 1, 2, 3, 5];
    let mut mt = build(&values);
    mt.reverse();
    let mut turned = values.to_vec();
    turned.reverse();
    assert_eq!(mt.iter(), turned);
    mt.reverse();
    assert_eq!(mt.iter(), values.to_vec());
    let mut empty = MasterTree::<AddSum>::new();
    empty.reverse();
    assert_eq!(empty.len(), 0);
}

#[test]
fn prod_is_the_sum_of_the_range() {
    let values = [3, -1, 4, -1, 5, -9, 2, 6, -5, 3, 5];
    let mut mt = build(&values);
    for l in 0..=values.len() {
        for r in l..=values.len() {
            let sum: i32 = values[l..r].iter().sum();
            assert_eq!(mt.prod(l..r), sum);
        }
    }
    assert_eq!(mt.prod(..=2), 6);
    assert_eq!(mt.prod(4..4), 0);
}

#[test]
fn apply_reaches_the_range_once_and_nothing_else() {
    let values = [10, 20, 30, 40, 50, 60, 70, 80];
    for l in 0..=values.len() {
        for r in l..=values.len() {
            let mut mt = build(&values);
            mt.apply(l..r, &7);
            let expected: Vec<i32> = values
                .iter()
                .enumerate()
                .map(|(i, &v)| if l <= i && i < r { v + 7 } else { v })
                .collect();
            assert_eq!(mt.iter(), expected);
            let sum: i32 = expected.iter().sum();
            assert_eq!(mt.prod(..), sum);
        }
    }
}

#[test]
fn sums_wrap_around() {
    let mut mt = build(&[i32::MAX, 1, 5]);
    assert_eq!(mt.prod(0..2), i32::MIN);
    mt.apply(.., &i32::MAX);
    assert_eq!(mt.get(0), -2);
    assert_eq!(mt.prod(..), i32::MAX.wrapping_mul(4).wrapping_add(6));
}

#[test]
fn a_clone_does_not_see_later_changes() {
    let values = [1, 2, 3, 4, 5, 6];
    let mut kept = build(&values);
    let mut copy = kept.clone();
    copy.insert(2, 100);
    copy.apply(.., &1);
    copy.reverse();
    assert_eq!(copy.remove(0), 7);
    assert_eq!(kept.iter(), values.to_vec());
    assert_eq!(kept.prod(..), 21);
    assert_eq!(copy.iter(), vec![6, 5, 4, 101, 3, 2]);
    kept.apply(0..2, &10);
    assert_eq!(kept.iter(), vec![11, 12, 3, 4, 5, 6]);
    assert_eq!(copy.iter(), vec![6, 5, 4, 101, 3, 2]);
}

#[test]
fn the_generator_is_deterministic() {
    let mut a = Rng::new();
    let mut b = Rng::new();
    assert_eq!(a.gen(), b.gen());
    let first = a.0;
    assert_eq!(a.gen(), (first ^ (first << 7)) ^ ((first ^ (first << 7)) >> 9));
    let mut forked = a.make();
    assert_ne!(forked.0, a.0);
    assert_ne!(forked.gen(), a.gen());
    let mut c = Rng::new();
    assert!(!c.pick(0, 5));
    assert!(c.pick(5, 0));
}

#[test]
fn ranges_that_hold_their_last_index() {
    let values = [3, 1, 4, 1, 5, 9, 2, 6];
    let mut tree = build(&values);
    assert_eq!(tree.prod(2..=5), 4 + 1 + 5 + 9);
    assert_eq!(tree.prod(0..=0), 3);
    assert_eq!(tree.prod(..=7), 31);
    tree.apply(6..=7, &10);
    assert_eq!(tree.iter(), vec![3, 1, 4, 1, 5, 9, 12, 16]);
    let whole = 0..=7;
    assert_eq!(tree.prod(whole), 51);
}

#[test]
fn the_outline_holds_the_elements_and_closes_what_it_opens() {
    let values = [3, 1, 4, 1, 5, 9, 2, 6, 5, 3];
    let mut tree = build(&values);
    tree.reverse();
    tree.apply(2..5, &10);
    let marks = tree.outline();
    assert_eq!(marks.len(), 3 * values.len());
    let mut depth = 0i32;
    let mut items = Vec::new();
    for mark in &marks {
        match mark {
            Mark::Open => depth += 1,
            Mark::Item(v) => {
                assert!(depth > 0);
                items.push(*v);
            }
            Mark::Close => {
                depth -= 1;
                assert!(depth >= 0);
            }
        }
    }
    assert_eq!(depth, 0);
    assert_eq!(items, tree.iter());
    assert_eq!(items, vec![3, 5, 16, 12, 19, 5, 1, 4, 1, 3]);
    let mut none: MasterTree<AddSum> = MasterTree::new();
    assert!(none.outline().is_empty());
}
