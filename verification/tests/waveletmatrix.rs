use algolib::waveletmatrix::WaveletMatrix;

#[test]
fn waveletmatrix_test() {
    let wm = WaveletMatrix::<4>::from_u32_slice(&[3, 1, 4, 1, 5, 9, 2, 6, 5, 3, 5]);
    assert_eq!(wm.access(4), 5);
    assert_eq!(wm.rank(5, 1..6), 1);
    assert_eq!(wm.min(4..7), 2);
    assert_eq!(wm.nth_smallest(3..8, 3), 6);
}

fn numbers(n: usize, digits: u32, seed: u64) -> Vec<u64> {
    let mut x = seed;
    let mut v = Vec::new();
    for _ in 0..n {
        x ^= x << 13;
        x ^= x >> 7;
        x ^= x << 17;
        v.push(if digits == 64 { x } else { x % (1u64 << digits) });
    }
    v
}

#[test]
fn every_query_agrees_with_looking_through_the_range() {
    let v = numbers(150, 5, 0x9e3779b97f4a7c15);
    let wm = WaveletMatrix::<5>::from_u64_slice(&v);
    assert_eq!(wm.len(), 150);
    assert!(!wm.is_empty());
    for i in 0..v.len() {
        assert_eq!(wm.access(i), v[i]);
    }
    for l in (0..=v.len()).step_by(7) {
        for r in (l..=v.len()).step_by(5) {
            let part = &v[l..r];
            for val in 0..32u64 {
                assert_eq!(wm.rank(val, l..r), part.iter().filter(|&&x| x == val).count());
            }
            if l < r {
                assert_eq!(wm.max(l..r), *part.iter().max().unwrap());
                assert_eq!(wm.min(l..r), *part.iter().min().unwrap());
                let mut sorted = part.to_vec();
                sorted.sort();
                for n in 0..sorted.len() {
                    assert_eq!(wm.nth_smallest(l..r, n), sorted[n]);
                }
            } else {
                assert_eq!(wm.max(l..r), 0);
                assert_eq!(wm.min(l..r), 31);
            }
        }
    }
}

#[test]
fn more_elements_than_a_word_holds_and_all_64_digits() {
    let v = numbers(300, 64, 0x2545f4914f6cdd1d);
    let wm = WaveletMatrix::<64>::from_u64_slice(&v);
    for i in 0..v.len() {
        assert_eq!(wm.access(i), v[i]);
    }
    assert_eq!(wm.max(..), *v.iter().max().unwrap());
    assert_eq!(wm.min(..), *v.iter().min().unwrap());
    assert_eq!(wm.max(64..128), *v[64..128].iter().max().unwrap());
    assert_eq!(wm.min(..=191), *v[..192].iter().min().unwrap());
    let mut sorted = v[10..290].to_vec();
    sorted.sort();
    assert_eq!(wm.nth_smallest(10..290, 0), sorted[0]);
    assert_eq!(wm.nth_smallest(10..290, 140), sorted[140]);
    assert_eq!(wm.nth_smallest(10..290, 279), sorted[279]);
    assert_eq!(wm.rank(v[77], ..), 1);
    assert_eq!(wm.rank(v[77], 78..), 0);
    assert_eq!(wm.min(300..), u64::MAX);
}

#[test]
fn digits_beyond_the_rows_are_left_out() {
    let wm = WaveletMatrix::<3>::from_u32_slice(&[8, 9, 15, 7, 16]);
    assert_eq!(wm.access(0), 0);
    assert_eq!(wm.access(1), 1);
    assert_eq!(wm.access(2), 7);
    assert_eq!(wm.access(3), 7);
    assert_eq!(wm.access(4), 0);
    assert_eq!(wm.rank(7, ..), 2);
    assert_eq!(wm.rank(15, ..), 2);
    assert_eq!(wm.rank(0, 1..), 1);
    let none = WaveletMatrix::<3>::from_u64_slice(&[]);
    assert!(none.is_empty());
    assert_eq!(none.rank(0, ..), 0);
    assert_eq!(none.max(..), 0);
    assert_eq!(none.min(..), 7);
}

#[test]
fn select_finds_each_occurrence_and_no_more() {
    let v = numbers(200, 3, 0x1234567887654321);
    let wm = WaveletMatrix::<3>::from_u64_slice(&v);
    for left in (0..=v.len()).step_by(13) {
        for val in 0..8u64 {
            let places: Vec<usize> = (left..v.len()).filter(|&i| v[i] == val).collect();
            for (count, &at) in places.iter().enumerate() {
                assert_eq!(wm.select(left, val, count), Some(at));
            }
            assert_eq!(wm.select(left, val, places.len()), None);
            assert_eq!(wm.select(left, val, places.len() + 5), None);
            assert_eq!(wm.select(left, val, usize::MAX), None);
        }
    }
    // digits from the third on are left out of the value asked for
    assert_eq!(wm.select(0, 8 + v[0], 0), Some(0));
}

#[test]
fn select_where_an_other_value_stands_behind_in_the_last_row() {
    let wm = WaveletMatrix::<2>::from_u32_slice(&[0, 2, 1]);
    assert_eq!(wm.select(0, 0, 0), Some(0));
    assert_eq!(wm.select(0, 0, 1), None);
    assert_eq!(wm.select(0, 2, 0), Some(1));
    assert_eq!(wm.select(2, 2, 0), None);
    assert_eq!(wm.select(0, 1, 0), Some(2));
    assert_eq!(wm.select(3, 1, 0), None);
    assert_eq!(wm.select(0, 3, 0), None);
}

#[test]
fn rank_range_counts_the_values_between_two_ends() {
    let v = numbers(120, 4, 0xdeadbeefcafef00d);
    let wm = WaveletMatrix::<4>::from_u64_slice(&v);
    for l in (0..=v.len()).step_by(11) {
        for r in (l..=v.len()).step_by(17) {
            let part = &v[l..r];
            for lo in 0..18u64 {
                for hi in 0..18u64 {
                    let want = part.iter().filter(|&&x| lo <= x && x < hi).count();
                    assert_eq!(wm.rank_range(lo..hi, l..r), want);
                }
                assert_eq!(wm.rank_range(lo.., l..r), part.iter().filter(|&&x| lo <= x).count());
                assert_eq!(wm.rank_range(..lo, l..r), part.iter().filter(|&&x| x < lo).count());
                assert_eq!(wm.rank_range(..=lo, l..r), part.iter().filter(|&&x| x <= lo).count());
            }
            assert_eq!(wm.rank_range(.., l..r), r - l);
            assert_eq!(wm.rank_range(..=u64::MAX, l..r), r - l);
            assert_eq!(wm.rank_range(u64::MAX.., l..r), 0);
        }
    }
    let wide = numbers(100, 64, 0x0123456789abcdef);
    let wm = WaveletMatrix::<64>::from_u64_slice(&wide);
    let mid = 1u64 << 63;
    assert_eq!(wm.rank_range(..mid, ..), wide.iter().filter(|&&x| x < mid).count());
    assert_eq!(wm.rank_range(mid.., 10..90), wide[10..90].iter().filter(|&&x| x >= mid).count());
    assert_eq!(wm.rank_range(..=u64::MAX, ..), 100);
}

#[test]
fn ranges_that_hold_their_last_value() {
    let v: Vec<u64> = vec![3, 1, 4, 1, 5, 9, 2, 6, 5, 3, 5];
    let wm = WaveletMatrix::<4>::from_u64_slice(&v);
    assert_eq!(wm.rank_range(3..=5, 1..=8), 3);
    assert_eq!(wm.rank_range(0..=15, ..), 11);
    assert_eq!(wm.rank_range(6..=u64::MAX, 2..=7), 2);
    assert_eq!(wm.rank(5, 4..=4), 1);
    assert_eq!(wm.max(0..=2), 4);
    assert_eq!(wm.min(4..=6), 2);
    assert_eq!(wm.nth_smallest(3..=7, 3), 6);
}
