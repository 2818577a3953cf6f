use algolib::minmax::MinMax;
use algolib::sparsetable::SparseTable;

#[test]
fn min_max() {
    let table = SparseTable::new(
        MinMax,
        vec![
            (0, 1),
            (1, 2),
            (2, 3),
            (3, 4),
            (4, 5),
            (5, 6),
            (6, 7),
            (7, 8),
            (8, 9),
        ],
    );
    assert_eq!(table.query(0..4), (0, 4));
    assert_eq!(table.query(2..6), (2, 6));
    assert_eq!(table.query(3..), (3, 9));
    assert_eq!(table.query(..), (0, 9));
}

#[test]
fn queries_of_all_ranges_for_all_small_lengths() {
    for n in 0..40usize {
        let values: Vec<(i32, i32)> = (0..n as i32)
            .map(|i| {
                let v = (i * 37 + 11) % 23 - 9;
                (v, v)
            })
            .collect();
        let table = SparseTable::new(MinMax, values.clone());
        assert_eq!(table.len(), n);
        assert_eq!(table.is_empty(), n == 0);
        for l in 0..=n {
            for r in l..=n {
                let least = values[l..r].iter().map(|v| v.0).min().unwrap_or(i32::MAX);
                let greatest = values[l..r].iter().map(|v| v.1).max().unwrap_or(i32::MIN);
                assert_eq!(table.query(l..r), (least, greatest));
            }
        }
    }
}
