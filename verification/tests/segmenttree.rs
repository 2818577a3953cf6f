use algolib::additive::IntAdd;
use algolib::segmenttree::SegmentTree;

#[test]
fn segmenttree_sum() {
    let mut seg = SegmentTree::from_vec(IntAdd, vec![3, 1, 4, 1, 5, 9, 2, 6, 5, 3]);
    assert_eq!(seg.prod(0..3), 8);
    assert_eq!(seg.prod(1..8), 28);
    assert_eq!(seg.prod(..), 39);
    assert_eq!(seg.prod(4..4), 0);
    assert_eq!(seg.binary_search(0, |&v| v < 22), 5);
    assert_eq!(seg.binary_search(1, |&v| v < 22), 6);
    seg.set(4, -100);
    assert_eq!(seg.prod(0..3), 8);
    assert_eq!(seg.prod(1..8), -77);
    assert_eq!(seg.prod(..), -66);
    assert_eq!(seg.prod(4..4), 0);
    assert_eq!(seg.binary_search(0, |&v| v < 22), 10);
    assert_eq!(seg.binary_search(1, |&v| v < 22), 10);
}

#[test]
fn products_of_all_ranges_for_all_small_lengths() {
    for n in 0..40usize {
        let values: Vec<i32> = (0..n as i32).map(|i| i * i - 7 * i + 3).collect();
        let mut seg = SegmentTree::from_vec(IntAdd, values.clone());
        assert_eq!(seg.len(), n);
        assert_eq!(seg.is_empty(), n == 0);
        for l in 0..=n {
            for r in l..=n {
                let sum: i32 = values[l..r].iter().sum();
                assert_eq!(seg.prod(l..r), sum);
            }
        }
        if n > 0 {
            let at = n / 2;
            seg.set(at, 1000);
            assert_eq!(*seg.get(at), 1000);
            let sum: i32 = values.iter().sum::<i32>() - values[at] + 1000;
            assert_eq!(seg.prod(..), sum);
            seg.setter(at, |v| v + 1);
            assert_eq!(*seg.get(at), 1001);
            assert_eq!(seg.prod(at..at + 1), 1001);
        }
    }
}

#[test]
fn a_new_tree_holds_identities() {
    let seg = SegmentTree::new(IntAdd, 7);
    assert_eq!(seg.len(), 7);
    assert_eq!(seg.prod(..), 0);
    assert_eq!(*seg.get(6), 0);
}

#[test]
fn binary_search_finds_the_longest_accepted_range() {
    for n in 1..30usize {
        let values: Vec<i32> = (0..n as i32).map(|i| (i % 5) + 1).collect();
        let seg = SegmentTree::from_vec(IntAdd, values.clone());
        for from in 0..=n {
            for limit in [0, 1, 4, 9, 25, 1000] {
                let mut expected = from;
                let mut sum = 0;
                while expected < n && sum + values[expected] < limit {
                    sum += values[expected];
                    expected += 1;
                }
                if limit > 0 {
                    assert_eq!(seg.binary_search(from, |&v| v < limit), expected);
                }
            }
        }
    }
}
