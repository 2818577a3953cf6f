use algolib::rangeset::MergeContent::{Both, Left, Right};
use algolib::rangeset::{merge_iter, RangeSet};

#[test]
fn rangeset_test() {
    let a = RangeSet::from(1..13);
    let b = RangeSet::from(5..20);
    let c = RangeSet::from(10..);
    assert!(!a.has(&0));
    assert!(a.has(&1));
    assert!(a.has(&4));
    assert!(a.has(&10));
    assert!(a.has(&12));
    assert!(!a.has(&13));
    assert!(!b.has(&1));
    assert!(b.has(&5));
    assert!(b.has(&16));
    assert!(!b.has(&30));
    assert!(!c.has(&8));
    assert!(c.has(&998244353));
    let d = a & b;
    assert!(!d.has(&1));
    assert!(d.has(&6));
    assert!(d.has(&12));
    assert!(!d.has(&13));
    let e = d ^ c;
    assert!(!e.has(&3));
    assert!(e.has(&8));
    assert!(!e.has(&11));
    assert!(e.has(&15));
}

fn sample(lo: i32, hi: i32) -> RangeSet<i32> {
    RangeSet::from_range(lo, hi)
}

#[test]
fn sets_combine_value_by_value() {
    let parts = [(0, 4), (2, 9), (9, 12), (15, 16), (-3, 20)];
    for &(a0, a1) in &parts {
        for &(b0, b1) in &parts {
            for &(c0, c1) in &parts {
                let in_a = |x: i32| a0 <= x && x < a1;
                let in_b = |x: i32| b0 <= x && x < b1;
                let in_c = |x: i32| c0 <= x && x < c1;
                let and = sample(a0, a1).and(sample(b0, b1));
                let or = sample(a0, a1).or(sample(b0, b1));
                let xor = sample(a0, a1).xor(sample(b0, b1));
                let not = !sample(a0, a1);
                let mixed = (sample(a0, a1) | sample(b0, b1)) ^ (!sample(c0, c1) & sample(b0, b1));
                for x in -6..24 {
                    assert_eq!(and.has(&x), in_a(x) && in_b(x));
                    assert_eq!(or.has(&x), in_a(x) || in_b(x));
                    assert_eq!(xor.has(&x), in_a(x) != in_b(x));
                    assert_eq!(not.has(&x), !in_a(x));
                    assert_eq!(mixed.has(&x), (in_a(x) || in_b(x)) != (!in_c(x) && in_b(x)));
                }
            }
        }
    }
}

#[test]
fn the_empty_and_the_full_set() {
    let empty = RangeSet::<i32>::new();
    let full = RangeSet::<i32>::full();
    let all = RangeSet::<i32>::from(..);
    let low = RangeSet::from(..7);
    let high = RangeSet::from_start(7);
    for x in [i32::MIN, -1, 0, 6, 7, 8, i32::MAX] {
        assert!(!empty.has(&x));
        assert!(full.has(&x));
        assert!(all.has(&x));
        assert_eq!(low.has(&x), x < 7);
        assert_eq!(high.has(&x), x >= 7);
    }
    let none = RangeSet::from_end(7).and(RangeSet::from_start(7));
    let every = RangeSet::from_end(7).or(RangeSet::from_start(7));
    for x in [i32::MIN, 6, 7, i32::MAX] {
        assert!(!none.has(&x));
        assert!(every.has(&x));
    }
}

#[test]
fn merging_takes_the_values_in_order() {
    assert_eq!(
        merge_iter(vec![1, 3, 5, 7], vec![2, 3, 8]),
        vec![Left(1), Right(2), Both(3, 3), Left(5), Left(7), Right(8)]
    );
    assert_eq!(merge_iter(vec![], vec![4, 6]), vec![Right(4), Right(6)]);
    assert_eq!(merge_iter(vec![4, 6], vec![]), vec![Left(4), Left(6)]);
    assert_eq!(merge_iter(Vec::<u8>::new(), vec![]), vec![]);
}

#[test]
fn sets_combine_in_place_and_leave_the_other_set() {
    let other = RangeSet::from(5..20);
    for x in -2..25 {
        let mut a = RangeSet::from(1..13);
        a.and_with(&other);
        assert_eq!(a.has(&x), (1 <= x && x < 13) && (5 <= x && x < 20));
        let mut b = RangeSet::from(1..13);
        b.or_with(&other);
        assert_eq!(b.has(&x), (1 <= x && x < 13) || (5 <= x && x < 20));
        let mut c = RangeSet::from(1..13);
        c.xor_with(&other);
        assert_eq!(c.has(&x), (1 <= x && x < 13) != (5 <= x && x < 20));
        assert_eq!(other.has(&x), 5 <= x && x < 20);
    }
    let mut twice = RangeSet::from(..7);
    twice.xor_with(&other);
    twice.xor_with(&other);
    for x in 0..25 {
        assert_eq!(twice.has(&x), x < 7);
    }
}
