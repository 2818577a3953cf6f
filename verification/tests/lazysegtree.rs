use algolib::additive::RangeAddSum;
use algolib::lazysegtree::{LazyMonoid, LazySegmentTree};
use algolib::util::{Associativity, Identity, Magma};

/// Least and greatest of a range, with a number added to a range. What
/// the library needs for its proofs is left without a body: nothing runs it.
struct TestMonoid;

impl Magma for TestMonoid {
    type T = (i32, i32);
    fn op_spec(&self, _: (i32, i32), _: (i32, i32)) -> (i32, i32) {
        unreachable!()
    }
    fn op(&self, &a: &(i32, i32), &b: &(i32, i32)) -> (i32, i32) {
        (a.0.min(b.0), a.1.max(b.1))
    }
}

impl Identity for TestMonoid {
    fn e_spec(&self) -> (i32, i32) {
        unreachable!()
    }
    fn e(&self) -> (i32, i32) {
        (i32::MAX, i32::MIN)
    }
    fn identity(&self, _: (i32, i32)) {}
}

impl Associativity for TestMonoid {
    fn associative(&self, _: (i32, i32), _: (i32, i32), _: (i32, i32)) {}
}

impl LazyMonoid for TestMonoid {
    type F = i32;
    fn id_spec(&self) -> i32 {
        unreachable!()
    }
    fn comp_spec(&self, _: i32, _: i32) -> i32 {
        unreachable!()
    }
    fn map_spec(&self, _: i32, _: (i32, i32)) -> (i32, i32) {
        unreachable!()
    }
    fn id(&self) -> i32 {
        0
    }
    fn comp(&self, &g: &i32, &f: &i32) -> i32 {
        g + f
    }
    fn map(&self, &f: &i32, &x: &(i32, i32)) -> (i32, i32) {
        (
            if x.0 == i32::MAX { i32::MAX } else { x.0 + f },
            if x.1 == i32::MIN { i32::MIN } else { x.1 + f },
        )
    }
    fn map_id(&self, _: (i32, i32)) {}
    fn map_comp(&self, _: i32, _: i32, _: (i32, i32)) {}
    fn map_op(&self, _: i32, _: (i32, i32), _: (i32, i32)) {}
}

#[test]
fn minmax_add() {
    let mut seg = LazySegmentTree::from_vec(
        TestMonoid,
        vec![
            (0, 0),
            (1, 1),
            (2, 2),
            (3, 3),
            (4, 4),
            (5, 5),
            (6, 6),
            (7, 7),
            (8, 8),
            (9, 9),
        ],
    );
    assert_eq!(seg.prod(2..7), (2, 6));
    assert_eq!(seg.prod(5..), (5, 9));
    seg.apply(1..4, &12);
    assert_eq!(seg.prod(2..7), (4, 15));
    assert_eq!(seg.prod(5..), (5, 9));
    seg.apply(3..8, &-20);
    assert_eq!(seg.prod(2..7), (-16, 14));
    assert_eq!(seg.prod(5..), (-15, 9));
}

#[test]
fn range_add_and_range_sum_for_all_small_lengths() {
    for n in 0..24usize {
        let mut plain: Vec<i32> = (0..n as i32).map(|i| i * 3 - 7).collect();
        let mut seg = LazySegmentTree::from_vec(
            RangeAddSum,
            plain.iter().map(|&v| (v, 1)).collect(),
        );
        assert_eq!(seg.len(), n);
        assert_eq!(seg.is_empty(), n == 0);
        let mut step = 0;
        for l in 0..=n {
            for r in l..=n {
                step += 1;
                let f = (step % 11) - 5;
                seg.apply(l..r, &f);
                for v in &mut plain[l..r] {
                    *v += f;
                }
                let a = (l * 7 + r) % (n + 1);
                let b = a + (r * 5 + l) % (n + 1 - a);
                let sum: i32 = plain[a..b].iter().sum();
                assert_eq!(seg.prod(a..b), (sum, (b - a) as i32));
            }
        }
        for i in 0..n {
            assert_eq!(seg.get_imu(i), (plain[i], 1));
        }
        for i in 0..n {
            assert_eq!(*seg.get(i), (plain[i], 1));
        }
        if n > 0 {
            seg.apply(.., &100);
            seg.set(n / 2, (5, 1));
            let sum: i32 = plain.iter().map(|v| v + 100).sum::<i32>() - (plain[n / 2] + 100) + 5;
            assert_eq!(seg.prod(..), (sum, n as i32));
            assert_eq!(seg.get_imu(n / 2), (5, 1));
        }
    }
}

#[test]
fn a_new_lazy_tree_holds_identities() {
    let mut seg = LazySegmentTree::new(RangeAddSum, 5);
    assert_eq!(seg.prod(..), (0, 0));
    seg.apply(1..3, &9);
    assert_eq!(seg.prod(..), (0, 0));
    seg.set(2, (4, 1));
    seg.apply(..4, &10);
    assert_eq!(seg.prod(..), (14, 1));
}

#[test]
fn setter_replaces_one_element_by_what_is_made_of_it() {
    let mut seg = LazySegmentTree::from_vec(RangeAddSum, vec![(1, 1), (2, 1), (3, 1), (4, 1)]);
    seg.apply(1..3, &10);
    seg.setter(2, |&(v, c)| (2 * v, c));
    assert_eq!(seg.get_imu(2), (26, 1));
    assert_eq!(seg.prod(..), (1 + 12 + 26 + 4, 4));
    seg.setter(0, |_| (100, 1));
    assert_eq!(seg.prod(..2), (112, 2));
}
