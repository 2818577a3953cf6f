//! Answering many queries over pairs `(l, r)` by walking from one pair to
//! the next along a Hilbert curve, one step at a time.

use vstd::prelude::*;

verus! {

/// The place of `(x, y)` on the Hilbert curve through the points whose
/// coordinates have `bits` bits: the quadrant of the point by its highest
/// bit, two bits of the place, then the place within the quadrant, which is
/// turned according to where it lies.
pub open spec fn hilbert_spec(x: u32, y: u32, bits: nat) -> u64
    decreases bits,
{
    if bits == 0 || bits > 31 {
        0
    } else {
        let i = (bits - 1) as u64;
        let g = 1u32 << (i as u32);
        if x & g > 0 {
            let quadrant: u64 = if y & g > 0 {
                2
            } else {
                1
            };
            (quadrant << (2 * i) as u64) | hilbert_spec(x, y, (bits - 1) as nat)
        } else if y & g > 0 {
            (3u64 << (2 * i) as u64) | hilbert_spec(!y, !x, (bits - 1) as nat)
        } else {
            hilbert_spec(y, x, (bits - 1) as nat)
        }
    }
}

/// The lowest `bits` bits of `x`.
pub open spec fn low_bits(x: u32, bits: nat) -> u32 {
    x & (((1u32 << (bits as u32)) - 1) as u32)
}

/// The quadrant of a point by the bit `g` of its coordinates, as the curve
/// counts the quadrants.
pub open spec fn quadrant_of(x: u32, y: u32, g: u32) -> u64 {
    if x & g > 0 {
        if y & g > 0 {
            2
        } else {
            1
        }
    } else if y & g > 0 {
        3
    } else {
        0
    }
}

/// The place within its quadrant of a point on the curve through the
/// points of `bits` bits.
pub open spec fn within_quadrant(x: u32, y: u32, bits: nat) -> u64 {
    let g = 1u32 << ((bits - 1) as u32);
    if x & g > 0 {
        hilbert_spec(x, y, (bits - 1) as nat)
    } else if y & g > 0 {
        hilbert_spec(!y, !x, (bits - 1) as nat)
    } else {
        hilbert_spec(y, x, (bits - 1) as nat)
    }
}

/// The place on the curve is the quadrant, two bits, in front of the place
/// within the quadrant, and has twice as many bits as the coordinates.
proof fn lemma_hilbert_parts(x: u32, y: u32, bits: nat)
    requires
        bits <= 31,
    ensures
        hilbert_spec(x, y, bits) < (1u64 << ((2 * bits) as u64)),
        bits >= 1 ==> hilbert_spec(x, y, bits) == (quadrant_of(
            x,
            y,
            1u32 << ((bits - 1) as u32),
        ) << ((2 * (bits - 1)) as u64)) | within_quadrant(x, y, bits),
    decreases bits,
{
    if bits == 0 {
        assert(0u64 < (1u64 << 0u64)) by (bit_vector);
    } else {
        let i = (bits - 1) as u64;
        let g = 1u32 << (i as u32);
        let q = quadrant_of(x, y, g);
        let below = within_quadrant(x, y, bits);
        if x & g > 0 {
            lemma_hilbert_parts(x, y, (bits - 1) as nat);
        } else if y & g > 0 {
            lemma_hilbert_parts(!y, !x, (bits - 1) as nat);
        } else {
            lemma_hilbert_parts(y, x, (bits - 1) as nat);
        }
        let s = (2 * i) as u64;
        let s2 = (2 * bits) as u64;
        assert(((q << s) | below) < (1u64 << s2) && ((0u64 << s) | below) == below) by (bit_vector)
            requires
                s <= 60,
                s2 == s + 2,
                q <= 3,
                below < (1u64 << s),
        ;
    }
}

/// Points of `bits` bits that have one place on the curve are one point.
proof fn lemma_hilbert_same(x: u32, y: u32, x2: u32, y2: u32, bits: nat)
    requires
        bits <= 31,
        hilbert_spec(x, y, bits) == hilbert_spec(x2, y2, bits),
    ensures
        low_bits(x, bits) == low_bits(x2, bits),
        low_bits(y, bits) == low_bits(y2, bits),
    decreases bits,
{
    if bits == 0 {
        let m = ((1u32 << 0u32) - 1) as u32;
        assert(x & m == x2 & m && y & m == y2 & m) by (bit_vector)
            requires
                m == ((1u32 << 0u32) - 1) as u32,
        ;
    } else {
        let i = (bits - 1) as u32;
        let g = 1u32 << i;
        let q = quadrant_of(x, y, g);
        let q2 = quadrant_of(x2, y2, g);
        let b = within_quadrant(x, y, bits);
        let b2 = within_quadrant(x2, y2, bits);
        lemma_hilbert_parts(x, y, bits);
        lemma_hilbert_parts(x2, y2, bits);
        if x & g > 0 {
            lemma_hilbert_parts(x, y, (bits - 1) as nat);
        } else if y & g > 0 {
            lemma_hilbert_parts(!y, !x, (bits - 1) as nat);
        } else {
            lemma_hilbert_parts(y, x, (bits - 1) as nat);
        }
        if x2 & g > 0 {
            lemma_hilbert_parts(x2, y2, (bits - 1) as nat);
        } else if y2 & g > 0 {
            lemma_hilbert_parts(!y2, !x2, (bits - 1) as nat);
        } else {
            lemma_hilbert_parts(y2, x2, (bits - 1) as nat);
        }
        let s = (2 * i) as u64;
        assert(q == q2 && b == b2) by (bit_vector)
            requires
                s <= 60,
                q <= 3,
                q2 <= 3,
                b < (1u64 << s),
                b2 < (1u64 << s),
                (q << s) | b == (q2 << s) | b2,
        ;
        let m = ((1u32 << i) - 1) as u32;
        let m1 = ((1u32 << ((i + 1) as u32)) - 1) as u32;
        if q == 1 || q == 2 {
            lemma_hilbert_same(x, y, x2, y2, (bits - 1) as nat);
        } else if q == 3 {
            lemma_hilbert_same(!y, !x, !y2, !x2, (bits - 1) as nat);
            assert(x & m == x2 & m && y & m == y2 & m) by (bit_vector)
                requires
                    (!x) & m == (!x2) & m,
                    (!y) & m == (!y2) & m,
            ;
        } else {
            lemma_hilbert_same(y, x, y2, x2, (bits - 1) as nat);
        }
        assert(x & m1 == x2 & m1 && y & m1 == y2 & m1) by (bit_vector)
            requires
                i <= 30,
                g == 1u32 << i,
                m == ((1u32 << i) - 1) as u32,
                m1 == ((1u32 << ((i + 1) as u32)) - 1) as u32,
                (x & g > 0) == (x2 & g > 0),
                (y & g > 0) == (y2 & g > 0),
                x & m == x2 & m,
                y & m == y2 & m,
        ;
    }
}

/// The curve is one-to-one: two points whose coordinates are below `2^31`
/// and that have one place on the curve are one point.
pub proof fn lemma_hilbert_one_to_one(a: (u32, u32), b: (u32, u32))
    requires
        a.0 < 0x8000_0000 && a.1 < 0x8000_0000,
        b.0 < 0x8000_0000 && b.1 < 0x8000_0000,
        hilbert_spec(a.0, a.1, 31) == hilbert_spec(b.0, b.1, 31),
    ensures
        a == b,
{
    lemma_hilbert_same(a.0, a.1, b.0, b.1, 31);
    let m = ((1u32 << 31u32) - 1) as u32;
    let (x, y, x2, y2) = (a.0, a.1, b.0, b.1);
    assert(x == x2 && y == y2) by (bit_vector)
        requires
            m == ((1u32 << 31u32) - 1) as u32,
            x < 0x8000_0000 && y < 0x8000_0000,
            x2 < 0x8000_0000 && y2 < 0x8000_0000,
            x & m == x2 & m,
            y & m == y2 & m,
    ;
}

/// The place of a point on the Hilbert curve of order 31. Points that are
/// close on the curve are close in the plane.
pub fn hilbert_order(point: (u32, u32)) -> (r: u64)
    ensures
        r == hilbert_spec(point.0, point.1, 31),
{
    let mut x = point.0;
    let mut y = point.1;
    let mut r: u64 = 0;
    let mut bits: u32 = 31;
    proof {
        let whole = hilbert_spec(x, y, 31);
        assert(0u64 | whole == whole) by (bit_vector);
    }
    while bits > 0
        invariant
            bits <= 31,
            r | hilbert_spec(x, y, bits as nat) == hilbert_spec(point.0, point.1, 31),
        decreases bits,
    {
        let i = bits - 1;
        let g: u32 = 1u32 << i;
        let ghost rest = hilbert_spec(x, y, bits as nat);
        if x & g > 0 {
            let quadrant: u64 = if y & g > 0 {
                2
            } else {
                1
            };
            let part = quadrant << (i * 2) as u64;
            proof {
                let below = hilbert_spec(x, y, i as nat);
                assert((r | part) | below == r | (part | below)) by (bit_vector);
            }
            r = r | part;
        } else {
            if y & g > 0 {
                let part = 3u64 << (i * 2) as u64;
                proof {
                    let below = hilbert_spec(!y, !x, i as nat);
                    assert((r | part) | below == r | (part | below)) by (bit_vector);
                }
                r = r | part;
                x = !x;
                y = !y;
            }
            let t = x;
            x = y;
            y = t;
        }
        bits = bits - 1;
    }
    proof {
        assert(r | 0 == r) by (bit_vector);
    }
    r
}

/// Whether `a` does not come behind `b`: by the first number, then by the second.
pub open spec fn pair_le(a: (u64, usize), b: (u64, usize)) -> bool {
    a.0 < b.0 || (a.0 == b.0 && a.1 <= b.1)
}

/// `<[T]>::sort_unstable` on pairs of numbers: afterwards the vector holds
/// the pairs it held, each as often as before, in ascending order.
#[verifier::external_body]
fn sort_pairs(v: &mut Vec<(u64, usize)>)
    ensures
        final(v)@.to_multiset() == old(v)@.to_multiset(),
        forall|i: int, j: int| 0 <= i <= j < final(v)@.len()
            ==> pair_le(final(v)@[i], final(v)@[j]),
{
    v.sort_unstable();
}

/// A state that follows a pair `(l, r)` as one of its two numbers moves by
/// one, and from which the answer for the pair it is at can be read.
///
/// A state may be one of ordered pairs only, those whose first number is not
/// above the second: such a state is never asked to take the first number
/// past the second.
pub trait MoStatus: Sized {
    /// What is answered for a pair.
    type Output;

    /// Whether the state is one of ordered pairs only.
    spec fn ordered() -> bool;

    /// Whether the state is that of `position`.
    spec fn at(&self, position: (u32, u32)) -> bool;

    /// The answer for `position`.
    spec fn answer(position: (u32, u32)) -> Self::Output;

    /// The state of the pair `(0, 0)`.
    fn make_origin() -> (r: Self)
        ensures
            r.at((0, 0)),
    ;

    /// Moves the first number up by one, from `position`. For a state of
    /// ordered pairs the first number is below the second.
    fn first_inc(&mut self, position: (u32, u32))
        requires
            old(self).at(position),
            position.0 < u32::MAX,
            Self::ordered() ==> position.0 < position.1,
        ensures
            final(self).at(((position.0 + 1) as u32, position.1)),
    ;

    /// Moves the first number down by one, from `position`. For a state of
    /// ordered pairs the first number is not above the second.
    fn first_dec(&mut self, position: (u32, u32))
        requires
            old(self).at(position),
            position.0 > 0,
            Self::ordered() ==> position.0 <= position.1,
        ensures
            final(self).at(((position.0 - 1) as u32, position.1)),
    ;

    /// Moves the second number up by one, from `position`. For a state of
    /// ordered pairs the first number is not above the second.
    fn second_inc(&mut self, position: (u32, u32))
        requires
            old(self).at(position),
            position.1 < u32::MAX,
            Self::ordered() ==> position.0 <= position.1,
        ensures
            final(self).at((position.0, (position.1 + 1) as u32)),
    ;

    /// Moves the second number down by one, from `position`. For a state
    /// of ordered pairs the first number is below the second.
    fn second_dec(&mut self, position: (u32, u32))
        requires
            old(self).at(position),
            position.1 > 0,
            Self::ordered() ==> position.0 < position.1,
        ensures
            final(self).at((position.0, (position.1 - 1) as u32)),
    ;

    /// The answer for `position`, at which the state is. For a state of
    /// ordered pairs the first number is not above the second.
    fn make_output(&self, position: (u32, u32)) -> (r: Self::Output)
        requires
            self.at(position),
            Self::ordered() ==> position.0 <= position.1,
        ensures
            r == Self::answer(position),
    ;
}

/// Walks the state from `position` to `next`, one step at a time: first
/// the first number down and the second up, which takes neither past the
/// other, then the first number up and the second down, as far as `next`
/// asks. Between two ordered pairs no step leaves a pair that is not.
fn walk<T: MoStatus>(status: &mut T, position: (u32, u32), next: (u32, u32))
    requires
        old(status).at(position),
        T::ordered() ==> position.0 <= position.1 && next.0 <= next.1,
    ensures
        final(status).at(next),
{
    let mut position = position;
    while next.0 < position.0
        invariant
            status.at(position),
            T::ordered() ==> position.0 <= position.1 && next.0 <= next.1,
        decreases position.0,
    {
        status.first_dec(position);
        position.0 = position.0 - 1;
    }
    while position.1 < next.1
        invariant
            status.at(position),
            position.0 <= next.0,
            T::ordered() ==> position.0 <= position.1 && next.0 <= next.1,
        decreases next.1 - position.1,
    {
        status.second_inc(position);
        position.1 = position.1 + 1;
    }
    while position.0 < next.0
        invariant
            status.at(position),
            position.0 <= next.0,
            next.1 <= position.1,
            T::ordered() ==> next.0 <= next.1,
        decreases next.0 - position.0,
    {
        status.first_inc(position);
        position.0 = position.0 + 1;
    }
    while next.1 < position.1
        invariant
            status.at(position),
            position.0 == next.0,
            next.1 <= position.1,
            T::ordered() ==> next.0 <= next.1,
        decreases position.1,
    {
        status.second_dec(position);
        position.1 = position.1 - 1;
    }
}

/// The answers for `querys`, each at the index of its pair. The pairs are
/// visited in the order of their places on the Hilbert curve, which keeps
/// the number of steps low. For a state of ordered pairs all pairs have to
/// be ordered, and then no step takes the first number past the second.
pub fn mo<T: MoStatus>(querys: &[(u32, u32)]) -> (r: Vec<T::Output>)
    requires
        T::ordered() ==> forall|i: int|
            0 <= i < querys@.len() ==> (#[trigger] querys@[i]).0 <= querys@[i].1,
    ensures
        r@.len() == querys@.len(),
        forall|i: int| 0 <= i < querys@.len() ==> r@[i] == T::answer(querys@[i]),
{
    let n = querys.len();
    let mut order: Vec<(u64, usize)> = Vec::new();
    let mut i: usize = 0;
    while i < n
        invariant
            i <= n,
            n == querys@.len(),
            order@.len() == i,
            forall|k: int| 0 <= k < i ==> (#[trigger] order@[k]).1 == k,
        decreases n - i,
    {
        order.push((hilbert_order(querys[i]), i));
        i += 1;
    }
    let ghost listed = order@;
    sort_pairs(&mut order);
    proof {
        listed.to_multiset_ensures();
        order@.to_multiset_ensures();
        assert forall|k: int| 0 <= k < order@.len() implies (#[trigger] order@[k]).1 < n by {
            assert(order@.contains(order@[k]));
            assert(listed.to_multiset().count(order@[k]) > 0);
            assert(listed.contains(order@[k]));
        }
    }
    let mut output: Vec<Option<T::Output>> = Vec::new();
    let mut i: usize = 0;
    while i < n
        invariant
            i <= n,
            output@.len() == i,
            forall|k: int| 0 <= k < i ==> (#[trigger] output@[k]).is_none(),
        decreases n - i,
    {
        output.push(None);
        i += 1;
    }
    let mut status = T::make_origin();
    let mut position: (u32, u32) = (0, 0);
    let mut progress: usize = 0;
    while progress < n
        invariant
            progress <= n,
            n == querys@.len(),
            order@.len() == n,
            output@.len() == n,
            status.at(position),
            T::ordered() ==> position.0 <= position.1,
            T::ordered() ==> forall|i: int|
                0 <= i < querys@.len() ==> (#[trigger] querys@[i]).0 <= querys@[i].1,
            forall|k: int| 0 <= k < n ==> (#[trigger] order@[k]).1 < n,
            forall|k: int| 0 <= k < progress ==> output@[(#[trigger] order@[k]).1 as int] == Some(
                T::answer(querys@[order@[k].1 as int]),
            ),
        decreases n - progress,
    {
        let index = order[progress].1;
        let next = querys[index];
        walk(&mut status, position, next);
        position = next;
        let ghost before = output@;
        output.set(index, Some(status.make_output(position)));
        proof {
            assert forall|k: int| 0 <= k < progress + 1
                implies output@[(#[trigger] order@[k]).1 as int]
                == Some(T::answer(querys@[order@[k].1 as int])) by {
                if order@[k].1 != index {
                    assert(output@[order@[k].1 as int] == before[order@[k].1 as int]);
                }
            }
        }
        progress += 1;
    }
    proof {
        assert forall|i: int| 0 <= i < n implies output@[i] == Some(T::answer(querys@[i])) by {
            let pair = listed[i];
            assert(listed.contains(pair));
            assert(order@.to_multiset().count(pair) > 0);
            assert(order@.contains(pair));
            let k = choose|k: int| 0 <= k < order@.len() && order@[k] == pair;
            assert(order@[k].1 == i);
        }
    }
    let mut result: Vec<T::Output> = Vec::new();
    while output.len() > 0
        invariant
            output@.len() + result@.len() == n,
            n == querys@.len(),
            forall|i: int| 0 <= i < output@.len() ==> output@[i] == Some(T::answer(querys@[i])),
            forall|i: int|
                0 <= i < result@.len() ==> result@[i] == T::answer(querys@[n - 1 - i]),
        decreases output@.len(),
    {
        let v = output.pop().unwrap().unwrap();
        result.push(v);
    }
    let mut turned: Vec<T::Output> = Vec::new();
    while result.len() > 0
        invariant
            result@.len() + turned@.len() == n,
            n == querys@.len(),
            forall|i: int|
                0 <= i < result@.len() ==> result@[i] == T::answer(querys@[n - 1 - i]),
            forall|i: int| 0 <= i < turned@.len() ==> turned@[i] == T::answer(querys@[i]),
        decreases result@.len(),
    {
        let v = result.pop().unwrap();
        turned.push(v);
    }
    turned
}

/// The state that answers a pair `(l, r)` with `r - l`, with wrap-around:
/// a state of pairs in any order.
pub struct Width(pub u32);

impl MoStatus for Width {
    type Output = u32;

    open spec fn ordered() -> bool {
        false
    }

    open spec fn at(&self, position: (u32, u32)) -> bool {
        self.0 == vstd::wrapping::u32_specs::wrapping_sub(position.1, position.0)
    }

    open spec fn answer(position: (u32, u32)) -> u32 {
        vstd::wrapping::u32_specs::wrapping_sub(position.1, position.0)
    }

    fn make_origin() -> (r: Self) {
        Width(0)
    }

    fn first_inc(&mut self, position: (u32, u32)) {
        self.0 = self.0.wrapping_sub(1);
    }

    fn first_dec(&mut self, position: (u32, u32)) {
        self.0 = self.0.wrapping_add(1);
    }

    fn second_inc(&mut self, position: (u32, u32)) {
        self.0 = self.0.wrapping_add(1);
    }

    fn second_dec(&mut self, position: (u32, u32)) {
        self.0 = self.0.wrapping_sub(1);
    }

    fn make_output(&self, position: (u32, u32)) -> (r: u32) {
        self.0
    }
}

/// The state that answers an ordered pair `(l, r)` with the number `r - l`
/// of the numbers from `l` up to `r`: a state of ordered pairs only, which
/// could not take the first number past the second.
pub struct Span(pub u32);

impl MoStatus for Span {
    type Output = u32;

    open spec fn ordered() -> bool {
        true
    }

    open spec fn at(&self, position: (u32, u32)) -> bool {
        position.0 <= position.1 && self.0 == position.1 - position.0
    }

    open spec fn answer(position: (u32, u32)) -> u32 {
        (position.1 - position.0) as u32
    }

    fn make_origin() -> (r: Self) {
        Span(0)
    }

    fn first_inc(&mut self, position: (u32, u32)) {
        self.0 = self.0 - 1;
    }

    fn first_dec(&mut self, position: (u32, u32)) {
        self.0 = self.0 + 1;
    }

    fn second_inc(&mut self, position: (u32, u32)) {
        self.0 = self.0 + 1;
    }

    fn second_dec(&mut self, position: (u32, u32)) {
        self.0 = self.0 - 1;
    }

    fn make_output(&self, position: (u32, u32)) -> (r: u32) {
        self.0
    }
}

} // verus!
