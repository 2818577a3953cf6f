use algolib::mo::{hilbert_order, mo, MoStatus, Span, Width};

/// The state of the function `f(x, y) = y - x`, which holds only while `x`
/// is not above `y`. Each step tests that it is asked for at the pair the
/// state is at, and that the first number is not raised, nor the second
/// lowered, where the two are the same. What the library needs for its
/// proofs is left without a meaning: nothing runs it.
struct Subtract(u32);

impl MoStatus for Subtract {
    type Output = u32;

    fn ordered() -> bool {
        unreachable!()
    }

    fn at(&self, _: (u32, u32)) -> bool {
        unreachable!()
    }

    fn answer(_: (u32, u32)) -> u32 {
        unreachable!()
    }

    fn make_origin() -> Self {
        Self(0)
    }

    fn first_inc(&mut self, position: (u32, u32)) {
        assert_eq!(self.0, position.1 - position.0);
        assert_ne!(position.0, position.1);
        self.0 -= 1;
    }

    fn first_dec(&mut self, position: (u32, u32)) {
        assert_eq!(self.0, position.1 - position.0);
        self.0 += 1;
    }

    fn second_inc(&mut self, position: (u32, u32)) {
        assert_eq!(self.0, position.1 - position.0);
        self.0 += 1;
    }

    fn second_dec(&mut self, position: (u32, u32)) {
        assert_eq!(self.0, position.1 - position.0);
        assert_ne!(position.0, position.1);
        self.0 -= 1;
    }

    fn make_output(&self, _: (u32, u32)) -> u32 {
        self.0
    }
}

#[test]
fn subtract() {
    let points = [
        (31, 41),
        (59, 265),
        (35, 89),
        (79, 323),
        (84, 626),
        (43, 383),
        (27, 95),
        (2, 88),
    ];
    assert_eq!(mo::<Subtract>(&points), points.map(|(x, y)| y - x).to_vec());
}

#[test]
fn ordered_pairs_are_reached_without_a_crossing() {
    let mut x: u64 = 0x9e3779b97f4a7c15;
    let mut points: Vec<(u32, u32)> = vec![(0, 0), (5, 5), (0, 700), (700, 700), (3, 4)];
    for _ in 0..200 {
        x ^= x << 13;
        x ^= x >> 7;
        x ^= x << 17;
        let a = (x % 1000) as u32;
        let b = ((x >> 32) % 1000) as u32;
        points.push((a.min(b), a.max(b)));
    }
    let expected: Vec<u32> = points.iter().map(|&(l, r)| r - l).collect();
    assert_eq!(mo::<Subtract>(&points), expected);
    assert_eq!(mo::<Span>(&points), expected);
    assert_eq!(mo::<Width>(&points), expected);
}

#[test]
fn no_queries_no_answers() {
    assert_eq!(mo::<Width>(&[]), Vec::<u32>::new());
}

#[test]
fn pairs_in_any_order_and_with_repeats() {
    let points = [(9, 3), (0, 0), (9, 3), (u32::MAX, 0), (5, u32::MAX), (7, 7)];
    let expected: Vec<u32> = points.iter().map(|&(x, y)| y.wrapping_sub(x)).collect();
    assert_eq!(mo::<Width>(&points), expected);
}

#[test]
fn the_curve_starts_in_the_corner() {
    assert_eq!(hilbert_order((0, 0)), 0);
    // the four points of the innermost square, in the order of the curve
    let mut places: Vec<(u64, (u32, u32))> = [(0, 0), (0, 1), (1, 0), (1, 1)]
        .iter()
        .map(|&p| (hilbert_order(p), p))
        .collect();
    places.sort();
    let order: Vec<u64> = places.iter().map(|p| p.0).collect();
    assert_eq!(order, vec![0, 1, 2, 3]);
    // neighbours on the curve are neighbours in the plane
    for w in places.windows(2) {
        let (a, b) = (w[0].1, w[1].1);
        assert_eq!(a.0.abs_diff(b.0) + a.1.abs_diff(b.1), 1);
    }
}

#[test]
fn the_curve_visits_a_square_without_jumps() {
    let side = 16u32;
    let mut places: Vec<(u64, (u32, u32))> = Vec::new();
    for x in 0..side {
        for y in 0..side {
            places.push((hilbert_order((x, y)), (x, y)));
        }
    }
    places.sort();
    for (k, p) in places.iter().enumerate() {
        assert_eq!(p.0, k as u64);
    }
    for w in places.windows(2) {
        let (a, b) = (w[0].1, w[1].1);
        assert_eq!(a.0.abs_diff(b.0) + a.1.abs_diff(b.1), 1);
    }
}
