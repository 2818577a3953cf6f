//! A monotone priority queue: what is pushed is never less than what was
//! last popped, and elements are kept by the highest bit in which they differ
//! from it.

use crate::util::HasMin;
use vstd::multiset::Multiset;
use vstd::prelude::*;
use vstd::std_specs::bits::{
    axiom_u32_leading_zeros, axiom_u64_leading_zeros, u32_leading_zeros, u64_leading_zeros,
};

verus! {

/// A type whose values can be kept in a `RadixHeap`: it is ordered, and two
/// values have a distance that tells how soon they part.
pub trait Radix: Copy + HasMin {
    /// The place of the value in the order.
    spec fn rank(self) -> int;

    /// The distance of two values: 0 between values of one rank only.
    spec fn dist(self, rhs: Self) -> nat;

    /// The greatest distance that two values can have.
    spec fn max_dist_spec() -> nat;

    /// The greatest distance that two values can have.
    fn max_dist() -> (r: usize)
        ensures
            r == Self::max_dist_spec(),
            r < usize::MAX,
    ;

    /// The distance of two values.
    fn radix_dist(&self, rhs: &Self) -> (r: usize)
        ensures
            r == self.dist(*rhs),
            r <= Self::max_dist_spec(),
    ;

    /// Whether `self` comes before `rhs` in the order.
    fn before(&self, rhs: &Self) -> (r: bool)
        ensures
            r == (self.rank() < rhs.rank()),
    ;

    /// No value comes before the least one.
    proof fn min_is_least(a: Self)
        ensures
            Self::min_value_spec().rank() <= a.rank(),
    ;

    /// Values of one rank, and no others, have the distance 0.
    proof fn dist_zero(a: Self, b: Self)
        ensures
            a.dist(b) == 0 <==> a.rank() == b.rank(),
    ;

    /// Of two values that are not before `base`, the one that is closer to
    /// `base` comes first, and the distance between the two is that of the
    /// farther one from `base`.
    proof fn dist_order(base: Self, a: Self, b: Self)
        requires
            base.rank() <= a.rank(),
            base.rank() <= b.rank(),
            base.dist(a) < base.dist(b),
        ensures
            a.rank() < b.rank(),
            a.dist(b) == base.dist(b),
    ;
}

/// Number of bits up to the highest set bit of `x`.
pub open spec fn bit_len32(x: u32) -> nat {
    (32 - u32_leading_zeros(x)) as nat
}

/// What the number of bits says of a value: nothing is set from there up,
/// and the bit below is set.
proof fn lemma_bit_len32(x: u32)
    ensures
        bit_len32(x) <= 32,
        bit_len32(x) == 0 <==> x == 0,
        bit_len32(x) < 32 ==> x >> (bit_len32(x) as u32) == 0,
        bit_len32(x) >= 1 ==> (x >> ((bit_len32(x) - 1) as u32)) & 1 == 1,
{
    axiom_u32_leading_zeros(x);
    let lz = u32_leading_zeros(x);
    let d = (32 - lz) as u32;
    if d >= 1 {
        let at = (d - 1) as u32;
        let bit = (x >> at) & 1u32;
        assert(bit != 0 ==> bit == 1) by (bit_vector)
            requires
                bit == (x >> at) & 1u32,
        ;
    }
}

/// The number of bits is the only number with that property.
proof fn lemma_bit_len32_unique(x: u32, d: u32)
    requires
        d <= 32,
        d < 32 ==> x >> d == 0,
        d >= 1 ==> (x >> ((d - 1) as u32)) & 1 == 1,
        d == 0 ==> x == 0,
    ensures
        bit_len32(x) == d,
{
    lemma_bit_len32(x);
    let e = bit_len32(x) as u32;
    let dm: u32 = if d >= 1 {
        (d - 1) as u32
    } else {
        0
    };
    let em: u32 = if e >= 1 {
        (e - 1) as u32
    } else {
        0
    };
    assert(d == e) by (bit_vector)
        requires
            d <= 32,
            e <= 32,
            dm < 32,
            em < 32,
            d >= 1 ==> dm + 1 == d && (x >> dm) & 1 == 1,
            e >= 1 ==> em + 1 == e && (x >> em) & 1 == 1,
            d < 32 ==> x >> d == 0,
            e < 32 ==> x >> e == 0,
            d == 0 ==> x == 0,
            e == 0 ==> x == 0,
    ;
}

/// The distance of two 32-bit keys: the number of bits up to the highest
/// one in which they differ.
pub open spec fn dist32(a: u32, b: u32) -> nat {
    bit_len32(a ^ b)
}

fn radix_dist32(a: u32, b: u32) -> (r: usize)
    ensures
        r == dist32(a, b),
        r <= 32,
{
    proof {
        lemma_bit_len32(a ^ b);
    }
    (32 - (a ^ b).leading_zeros()) as usize
}

proof fn lemma_zero32(a: u32, b: u32)
    ensures
        dist32(a, b) == 0 <==> a == b,
{
    lemma_bit_len32(a ^ b);
    assert((a ^ b == 0) == (a == b)) by (bit_vector);
}

proof fn lemma_order32(base: u32, a: u32, b: u32)
    requires
        base <= a,
        base <= b,
        dist32(base, a) < dist32(base, b),
    ensures
        a < b,
        dist32(a, b) == dist32(base, b),
{
    let x = base ^ a;
    let y = base ^ b;
    let z = a ^ b;
    lemma_bit_len32(x);
    lemma_bit_len32(y);
    let da = bit_len32(x) as u32;
    let db = bit_len32(y) as u32;
    let dbm = (db - 1) as u32;
    assert(a < b && (z >> dbm) & 1 == 1 && (db < 32 ==> z >> db == 0)) by (bit_vector)
        requires
            x == base ^ a,
            y == base ^ b,
            z == a ^ b,
            base <= a,
            base <= b,
            da < db,
            db <= 32,
            dbm + 1 == db,
            x >> da == 0,
            (y >> dbm) & 1 == 1,
            db < 32 ==> y >> db == 0,
    ;
    lemma_bit_len32_unique(z, db);
}

impl Radix for u32 {
    open spec fn rank(self) -> int {
        self as int
    }

    open spec fn dist(self, rhs: u32) -> nat {
        dist32(self, rhs)
    }

    open spec fn max_dist_spec() -> nat {
        32
    }

    fn max_dist() -> (r: usize) {
        32
    }

    fn radix_dist(&self, rhs: &u32) -> (r: usize) {
        radix_dist32(*self, *rhs)
    }

    fn before(&self, rhs: &u32) -> (r: bool) {
        *self < *rhs
    }

    proof fn min_is_least(a: u32) {
    }

    proof fn dist_zero(a: u32, b: u32) {
        lemma_zero32(a, b);
    }

    proof fn dist_order(base: u32, a: u32, b: u32) {
        lemma_order32(base, a, b);
    }
}

/// The place of an `i32` among the 32-bit keys: the least value has the key 0.
pub open spec fn key_i32(a: i32) -> u32 {
    (a + 0x8000_0000) as u32
}

fn to_key_i32(a: i32) -> (r: u32)
    ensures
        r == key_i32(a),
{
    (a as i64 + 0x8000_0000) as u32
}

impl Radix for i32 {
    open spec fn rank(self) -> int {
        self as int
    }

    open spec fn dist(self, rhs: i32) -> nat {
        dist32(key_i32(self), key_i32(rhs))
    }

    open spec fn max_dist_spec() -> nat {
        32
    }

    fn max_dist() -> (r: usize) {
        32
    }

    fn radix_dist(&self, rhs: &i32) -> (r: usize) {
        radix_dist32(to_key_i32(*self), to_key_i32(*rhs))
    }

    fn before(&self, rhs: &i32) -> (r: bool) {
        *self < *rhs
    }

    proof fn min_is_least(a: i32) {
    }

    proof fn dist_zero(a: i32, b: i32) {
        lemma_zero32(key_i32(a), key_i32(b));
    }

    proof fn dist_order(base: i32, a: i32, b: i32) {
        lemma_order32(key_i32(base), key_i32(a), key_i32(b));
    }
}

/// Number of bits up to the highest set bit of `x`.
pub open spec fn bit_len64(x: u64) -> nat {
    (64 - u64_leading_zeros(x)) as nat
}

/// What the number of bits says of a value: nothing is set from there up,
/// and the bit below is set.
proof fn lemma_bit_len64(x: u64)
    ensures
        bit_len64(x) <= 64,
        bit_len64(x) == 0 <==> x == 0,
        bit_len64(x) < 64 ==> x >> (bit_len64(x) as u64) == 0,
        bit_len64(x) >= 1 ==> (x >> ((bit_len64(x) - 1) as u64)) & 1 == 1,
{
    axiom_u64_leading_zeros(x);
    let lz = u64_leading_zeros(x);
    let d = (64 - lz) as u64;
    if d >= 1 {
        let at = (d - 1) as u64;
        let bit = (x >> at) & 1u64;
        assert(bit != 0 ==> bit == 1) by (bit_vector)
            requires
                bit == (x >> at) & 1u64,
        ;
    }
}

/// The number of bits is the only number with that property.
proof fn lemma_bit_len64_unique(x: u64, d: u64)
    requires
        d <= 64,
        d < 64 ==> x >> d == 0,
        d >= 1 ==> (x >> ((d - 1) as u64)) & 1 == 1,
        d == 0 ==> x == 0,
    ensures
        bit_len64(x) == d,
{
    lemma_bit_len64(x);
    let e = bit_len64(x) as u64;
    let dm: u64 = if d >= 1 {
        (d - 1) as u64
    } else {
        0
    };
    let em: u64 = if e >= 1 {
        (e - 1) as u64
    } else {
        0
    };
    assert(d == e) by (bit_vector)
        requires
            d <= 64,
            e <= 64,
            dm < 64,
            em < 64,
            d >= 1 ==> dm + 1 == d && (x >> dm) & 1 == 1,
            e >= 1 ==> em + 1 == e && (x >> em) & 1 == 1,
            d < 64 ==> x >> d == 0,
            e < 64 ==> x >> e == 0,
            d == 0 ==> x == 0,
            e == 0 ==> x == 0,
    ;
}

/// The distance of two 64-bit keys: the number of bits up to the highest
/// one in which they differ.
pub open spec fn dist64(a: u64, b: u64) -> nat {
    bit_len64(a ^ b)
}

fn radix_dist64(a: u64, b: u64) -> (r: usize)
    ensures
        r == dist64(a, b),
        r <= 64,
{
    proof {
        lemma_bit_len64(a ^ b);
    }
    (64 - (a ^ b).leading_zeros()) as usize
}

proof fn lemma_zero64(a: u64, b: u64)
    ensures
        dist64(a, b) == 0 <==> a == b,
{
    lemma_bit_len64(a ^ b);
    assert((a ^ b == 0) == (a == b)) by (bit_vector);
}

proof fn lemma_order64(base: u64, a: u64, b: u64)
    requires
        base <= a,
        base <= b,
        dist64(base, a) < dist64(base, b),
    ensures
        a < b,
        dist64(a, b) == dist64(base, b),
{
    let x = base ^ a;
    let y = base ^ b;
    let z = a ^ b;
    lemma_bit_len64(x);
    lemma_bit_len64(y);
    let da = bit_len64(x) as u64;
    let db = bit_len64(y) as u64;
    let dbm = (db - 1) as u64;
    assert(a < b && (z >> dbm) & 1 == 1 && (db < 64 ==> z >> db == 0)) by (bit_vector)
        requires
            x == base ^ a,
            y == base ^ b,
            z == a ^ b,
            base <= a,
            base <= b,
            da < db,
            db <= 64,
            dbm + 1 == db,
            x >> da == 0,
            (y >> dbm) & 1 == 1,
            db < 64 ==> y >> db == 0,
    ;
    lemma_bit_len64_unique(z, db);
}

/// The place of an `i64` among the 64-bit keys: the least value has the key 0.
pub open spec fn key_i64(a: i64) -> u64 {
    (a + 0x8000_0000_0000_0000) as u64
}

fn to_key_i64(a: i64) -> (r: u64)
    ensures
        r == key_i64(a),
{
    (a as i128 + 0x8000_0000_0000_0000) as u64
}

impl Radix for u8 {
    open spec fn rank(self) -> int {
        self as int
    }

    open spec fn dist(self, rhs: u8) -> nat {
        dist32(self as u32, rhs as u32)
    }

    open spec fn max_dist_spec() -> nat {
        32
    }

    fn max_dist() -> (r: usize) {
        32
    }

    fn radix_dist(&self, rhs: &u8) -> (r: usize) {
        radix_dist32(*self as u32, *rhs as u32)
    }

    fn before(&self, rhs: &u8) -> (r: bool) {
        *self < *rhs
    }

    proof fn min_is_least(a: u8) {
    }

    proof fn dist_zero(a: u8, b: u8) {
        lemma_zero32(a as u32, b as u32);
    }

    proof fn dist_order(base: u8, a: u8, b: u8) {
        lemma_order32(base as u32, a as u32, b as u32);
    }
}

impl Radix for u16 {
    open spec fn rank(self) -> int {
        self as int
    }

    open spec fn dist(self, rhs: u16) -> nat {
        dist32(self as u32, rhs as u32)
    }

    open spec fn max_dist_spec() -> nat {
        32
    }

    fn max_dist() -> (r: usize) {
        32
    }

    fn radix_dist(&self, rhs: &u16) -> (r: usize) {
        radix_dist32(*self as u32, *rhs as u32)
    }

    fn before(&self, rhs: &u16) -> (r: bool) {
        *self < *rhs
    }

    proof fn min_is_least(a: u16) {
    }

    proof fn dist_zero(a: u16, b: u16) {
        lemma_zero32(a as u32, b as u32);
    }

    proof fn dist_order(base: u16, a: u16, b: u16) {
        lemma_order32(base as u32, a as u32, b as u32);
    }
}

impl Radix for u64 {
    open spec fn rank(self) -> int {
        self as int
    }

    open spec fn dist(self, rhs: u64) -> nat {
        dist64(self, rhs)
    }

    open spec fn max_dist_spec() -> nat {
        64
    }

    fn max_dist() -> (r: usize) {
        64
    }

    fn radix_dist(&self, rhs: &u64) -> (r: usize) {
        radix_dist64(*self, *rhs)
    }

    fn before(&self, rhs: &u64) -> (r: bool) {
        *self < *rhs
    }

    proof fn min_is_least(a: u64) {
    }

    proof fn dist_zero(a: u64, b: u64) {
        lemma_zero64(a, b);
    }

    proof fn dist_order(base: u64, a: u64, b: u64) {
        lemma_order64(base, a, b);
    }
}

impl Radix for usize {
    open spec fn rank(self) -> int {
        self as int
    }

    open spec fn dist(self, rhs: usize) -> nat {
        dist64(self as u64, rhs as u64)
    }

    open spec fn max_dist_spec() -> nat {
        64
    }

    fn max_dist() -> (r: usize) {
        64
    }

    fn radix_dist(&self, rhs: &usize) -> (r: usize) {
        radix_dist64(*self as u64, *rhs as u64)
    }

    fn before(&self, rhs: &usize) -> (r: bool) {
        *self < *rhs
    }

    proof fn min_is_least(a: usize) {
    }

    proof fn dist_zero(a: usize, b: usize) {
        lemma_zero64(a as u64, b as u64);
    }

    proof fn dist_order(base: usize, a: usize, b: usize) {
        lemma_order64(base as u64, a as u64, b as u64);
    }
}

impl Radix for i8 {
    open spec fn rank(self) -> int {
        self as int
    }

    open spec fn dist(self, rhs: i8) -> nat {
        dist32(key_i32(self as i32), key_i32(rhs as i32))
    }

    open spec fn max_dist_spec() -> nat {
        32
    }

    fn max_dist() -> (r: usize) {
        32
    }

    fn radix_dist(&self, rhs: &i8) -> (r: usize) {
        radix_dist32(to_key_i32(*self as i32), to_key_i32(*rhs as i32))
    }

    fn before(&self, rhs: &i8) -> (r: bool) {
        *self < *rhs
    }

    proof fn min_is_least(a: i8) {
    }

    proof fn dist_zero(a: i8, b: i8) {
        lemma_zero32(key_i32(a as i32), key_i32(b as i32));
    }

    proof fn dist_order(base: i8, a: i8, b: i8) {
        lemma_order32(key_i32(base as i32), key_i32(a as i32), key_i32(b as i32));
    }
}

impl Radix for i16 {
    open spec fn rank(self) -> int {
        self as int
    }

    open spec fn dist(self, rhs: i16) -> nat {
        dist32(key_i32(self as i32), key_i32(rhs as i32))
    }

    open spec fn max_dist_spec() -> nat {
        32
    }

    fn max_dist() -> (r: usize) {
        32
    }

    fn radix_dist(&self, rhs: &i16) -> (r: usize) {
        radix_dist32(to_key_i32(*self as i32), to_key_i32(*rhs as i32))
    }

    fn before(&self, rhs: &i16) -> (r: bool) {
        *self < *rhs
    }

    proof fn min_is_least(a: i16) {
    }

    proof fn dist_zero(a: i16, b: i16) {
        lemma_zero32(key_i32(a as i32), key_i32(b as i32));
    }

    proof fn dist_order(base: i16, a: i16, b: i16) {
        lemma_order32(key_i32(base as i32), key_i32(a as i32), key_i32(b as i32));
    }
}

impl Radix for i64 {
    open spec fn rank(self) -> int {
        self as int
    }

    open spec fn dist(self, rhs: i64) -> nat {
        dist64(key_i64(self), key_i64(rhs))
    }

    open spec fn max_dist_spec() -> nat {
        64
    }

    fn max_dist() -> (r: usize) {
        64
    }

    fn radix_dist(&self, rhs: &i64) -> (r: usize) {
        radix_dist64(to_key_i64(*self), to_key_i64(*rhs))
    }

    fn before(&self, rhs: &i64) -> (r: bool) {
        *self < *rhs
    }

    proof fn min_is_least(a: i64) {
    }

    proof fn dist_zero(a: i64, b: i64) {
        lemma_zero64(key_i64(a), key_i64(b));
    }

    proof fn dist_order(base: i64, a: i64, b: i64) {
        lemma_order64(key_i64(base), key_i64(a), key_i64(b));
    }
}

impl Radix for isize {
    open spec fn rank(self) -> int {
        self as int
    }

    open spec fn dist(self, rhs: isize) -> nat {
        dist64(key_i64(self as i64), key_i64(rhs as i64))
    }

    open spec fn max_dist_spec() -> nat {
        64
    }

    fn max_dist() -> (r: usize) {
        64
    }

    fn radix_dist(&self, rhs: &isize) -> (r: usize) {
        radix_dist64(to_key_i64(*self as i64), to_key_i64(*rhs as i64))
    }

    fn before(&self, rhs: &isize) -> (r: bool) {
        *self < *rhs
    }

    proof fn min_is_least(a: isize) {
    }

    proof fn dist_zero(a: isize, b: isize) {
        lemma_zero64(key_i64(a as i64), key_i64(b as i64));
    }

    proof fn dist_order(base: isize, a: isize, b: isize) {
        lemma_order64(key_i64(base as i64), key_i64(a as i64), key_i64(b as i64));
    }
}

/// The upper 64 bits of a key of 128 bits.
pub open spec fn upper64(a: u128) -> u64 {
    (a / 0x1_0000_0000_0000_0000) as u64
}

/// The lower 64 bits of a key of 128 bits.
pub open spec fn lower64(a: u128) -> u64 {
    (a % 0x1_0000_0000_0000_0000) as u64
}

/// The distance of two 128-bit keys: the number of bits up to the highest
/// one in which they differ, which is among the upper 64 where those
/// differ, and among the lower 64 where they do not.
pub open spec fn dist128(a: u128, b: u128) -> nat {
    if upper64(a) != upper64(b) {
        64 + dist64(upper64(a), upper64(b))
    } else {
        dist64(lower64(a), lower64(b))
    }
}

fn radix_dist128(a: u128, b: u128) -> (r: usize)
    ensures
        r == dist128(a, b),
        r <= 128,
{
    let ha = (a / 0x1_0000_0000_0000_0000) as u64;
    let hb = (b / 0x1_0000_0000_0000_0000) as u64;
    if ha != hb {
        64 + radix_dist64(ha, hb)
    } else {
        let la = (a % 0x1_0000_0000_0000_0000) as u64;
        let lb = (b % 0x1_0000_0000_0000_0000) as u64;
        radix_dist64(la, lb)
    }
}

proof fn lemma_zero128(a: u128, b: u128)
    ensures
        dist128(a, b) == 0 <==> a == b,
{
    lemma_zero64(lower64(a), lower64(b));
    lemma_zero64(upper64(a), upper64(b));
}

proof fn lemma_order128(base: u128, a: u128, b: u128)
    requires
        base <= a,
        base <= b,
        dist128(base, a) < dist128(base, b),
    ensures
        a < b,
        dist128(a, b) == dist128(base, b),
{
    lemma_bit_len64(lower64(base) ^ lower64(b));
    lemma_bit_len64(lower64(base) ^ lower64(a));
    lemma_zero64(upper64(base), upper64(a));
    lemma_zero64(upper64(base), upper64(b));
    if upper64(base) == upper64(b) {
        assert(upper64(a) == upper64(base));
        lemma_order64(lower64(base), lower64(a), lower64(b));
    } else if upper64(a) != upper64(base) {
        lemma_order64(upper64(base), upper64(a), upper64(b));
    }
}

impl Radix for u128 {
    open spec fn rank(self) -> int {
        self as int
    }

    open spec fn dist(self, rhs: u128) -> nat {
        dist128(self, rhs)
    }

    open spec fn max_dist_spec() -> nat {
        128
    }

    fn max_dist() -> (r: usize) {
        128
    }

    fn radix_dist(&self, rhs: &u128) -> (r: usize) {
        radix_dist128(*self, *rhs)
    }

    fn before(&self, rhs: &u128) -> (r: bool) {
        *self < *rhs
    }

    proof fn min_is_least(a: u128) {
    }

    proof fn dist_zero(a: u128, b: u128) {
        lemma_zero128(a, b);
    }

    proof fn dist_order(base: u128, a: u128, b: u128) {
        lemma_order128(base, a, b);
    }
}

/// The place of an `i128` among the 128-bit keys: the least value has the
/// key 0.
pub open spec fn key_i128(a: i128) -> u128 {
    (a + 0x8000_0000_0000_0000_0000_0000_0000_0000) as u128
}

fn to_key_i128(a: i128) -> (r: u128)
    ensures
        r == key_i128(a),
{
    if a >= 0 {
        a as u128 + 0x8000_0000_0000_0000_0000_0000_0000_0000u128
    } else {
        (a + 0x7fff_ffff_ffff_ffff_ffff_ffff_ffff_ffffi128 + 1) as u128
    }
}

impl Radix for i128 {
    open spec fn rank(self) -> int {
        self as int
    }

    open spec fn dist(self, rhs: i128) -> nat {
        dist128(key_i128(self), key_i128(rhs))
    }

    open spec fn max_dist_spec() -> nat {
        128
    }

    fn max_dist() -> (r: usize) {
        128
    }

    fn radix_dist(&self, rhs: &i128) -> (r: usize) {
        radix_dist128(to_key_i128(*self), to_key_i128(*rhs))
    }

    fn before(&self, rhs: &i128) -> (r: bool) {
        *self < *rhs
    }

    proof fn min_is_least(a: i128) {
    }

    proof fn dist_zero(a: i128, b: i128) {
        lemma_zero128(key_i128(a), key_i128(b));
    }

    proof fn dist_order(base: i128, a: i128, b: i128) {
        lemma_order128(key_i128(base), key_i128(a), key_i128(b));
    }
}

/// All elements of all buckets.
pub open spec fn content<T>(bs: Seq<Vec<T>>) -> Multiset<T>
    decreases bs.len(),
{
    if bs.len() == 0 {
        Multiset::empty()
    } else {
        content(bs.drop_last()).add(bs.last()@.to_multiset())
    }
}

/// Every element is in the bucket of its distance from `last`, and none
/// comes before `last`.
pub open spec fn placed<T: Radix>(bs: Seq<Vec<T>>, last: T) -> bool {
    forall|d: int, i: int|
        0 <= d < bs.len() && 0 <= i < bs[d]@.len() ==> last.rank() <= (#[trigger] bs[d]@[i]).rank()
            && last.dist(bs[d]@[i]) == d
}

proof fn lemma_content_put<T>(bs: Seq<Vec<T>>, d: int, v: T, nb: Vec<T>)
    requires
        0 <= d < bs.len(),
        nb@ == bs[d]@.push(v),
    ensures
        content(bs.update(d, nb)) =~= content(bs).insert(v),
    decreases bs.len(),
{
    broadcast use vstd::seq_lib::group_to_multiset_ensures;

    let after = bs.update(d, nb);
    if d == bs.len() - 1 {
        assert(after.drop_last() =~= bs.drop_last());
    } else {
        assert(after.drop_last() =~= bs.drop_last().update(d, nb));
        lemma_content_put(bs.drop_last(), d, v, nb);
    }
}

proof fn lemma_content_take<T>(bs: Seq<Vec<T>>, d: int, nb: Vec<T>)
    requires
        0 <= d < bs.len(),
        bs[d]@.len() > 0,
        nb@ == bs[d]@.drop_last(),
    ensures
        content(bs).count(bs[d]@.last()) > 0,
        content(bs.update(d, nb)) =~= content(bs).remove(bs[d]@.last()),
    decreases bs.len(),
{
    broadcast use vstd::seq_lib::group_to_multiset_ensures;

    let after = bs.update(d, nb);
    let x = bs[d]@.last();
    if d == bs.len() - 1 {
        assert(after.drop_last() =~= bs.drop_last());
        assert(bs[d]@.drop_last() =~= bs[d]@.remove(bs[d]@.len() - 1));
        assert(bs[d]@.contains(x));
    } else {
        assert(after.drop_last() =~= bs.drop_last().update(d, nb));
        lemma_content_take(bs.drop_last(), d, nb);
    }
}

proof fn lemma_content_clear<T>(bs: Seq<Vec<T>>, d: int, nb: Vec<T>)
    requires
        0 <= d < bs.len(),
        nb@.len() == 0,
    ensures
        content(bs.update(d, nb)).add(bs[d]@.to_multiset()) =~= content(bs),
    decreases bs.len(),
{
    broadcast use vstd::seq_lib::group_to_multiset_ensures;

    let after = bs.update(d, nb);
    if d == bs.len() - 1 {
        assert(after.drop_last() =~= bs.drop_last());
        assert(nb@.to_multiset().len() == 0);
        assert(nb@.to_multiset() =~= Multiset::<T>::empty());
    } else {
        assert(after.drop_last() =~= bs.drop_last().update(d, nb));
        lemma_content_clear(bs.drop_last(), d, nb);
    }
}

/// What is among the elements is in one of the buckets.
proof fn lemma_content_member<T>(bs: Seq<Vec<T>>, x: T)
    requires
        content(bs).count(x) > 0,
    ensures
        exists|d: int, i: int| 0 <= d < bs.len() && 0 <= i < bs[d]@.len()
            && #[trigger] bs[d]@[i] == x,
    decreases bs.len(),
{
    broadcast use vstd::seq_lib::group_to_multiset_ensures;

    if bs.len() > 0 {
        let top = bs.len() - 1;
        if bs.last()@.to_multiset().count(x) > 0 {
            assert(bs.last()@.contains(x));
            let i = choose|i: int| 0 <= i < bs.last()@.len() && bs.last()@[i] == x;
            assert(bs[top]@[i] == x);
        } else {
            lemma_content_member(bs.drop_last(), x);
            let (d, i) = choose|d: int, i: int|
                0 <= d < bs.drop_last().len() && 0 <= i < bs.drop_last()[d]@.len()
                    && #[trigger] bs.drop_last()[d]@[i] == x;
            assert(bs[d]@[i] == x);
        }
    }
}

/// Where every bucket is empty, there are no elements.
proof fn lemma_content_none<T>(bs: Seq<Vec<T>>)
    requires
        forall|d: int| 0 <= d < bs.len() ==> (#[trigger] bs[d])@.len() == 0,
    ensures
        content(bs) =~= Multiset::<T>::empty(),
    decreases bs.len(),
{
    broadcast use vstd::seq_lib::group_to_multiset_ensures;

    if bs.len() > 0 {
        assert(bs.last() == bs[bs.len() - 1]);
        assert(bs.last()@.to_multiset().len() == 0);
        assert(bs.last()@.to_multiset() =~= Multiset::<T>::empty());
        assert forall|d: int| 0 <= d < bs.drop_last().len()
            implies (#[trigger] bs.drop_last()[d])@.len()
            == 0 by {
            assert(bs.drop_last()[d] == bs[d]);
        }
        lemma_content_none(bs.drop_last());
    }
}

/// A priority queue for elements that are never less than the one that was
/// popped last.
pub struct RadixHeap<T: Radix> {
    buckets: Vec<Vec<T>>,
    /// The element popped last: at first the least value of the type.
    last: T,
    /// Number of elements.
    len: usize,
}

impl<T: Radix> View for RadixHeap<T> {
    type V = Multiset<T>;

    /// The elements.
    closed spec fn view(&self) -> Multiset<T> {
        content(self.buckets@)
    }
}

impl<T: Radix> RadixHeap<T> {
    /// There is a bucket for every distance, every element is in the bucket
    /// of its distance from the element popped last, and the kept length is
    /// the number of elements.
    pub closed spec fn wf(&self) -> bool {
        &&& self.buckets@.len() == T::max_dist_spec() + 1
        &&& placed(self.buckets@, self.last)
        &&& self.len == content(self.buckets@).len()
    }

    /// The element popped last, or the least value where none was.
    pub closed spec fn spec_last(&self) -> T {
        self.last
    }

    /// No element comes before the one that was popped last.
    pub proof fn lemma_not_before_last(&self, x: T)
        requires
            self.wf(),
            self@.count(x) > 0,
        ensures
            self.spec_last().rank() <= x.rank(),
    {
        lemma_content_member(self.buckets@, x);
    }

    /// The empty queue.
    pub fn new() -> (r: Self)
        ensures
            r.wf(),
            r@ == Multiset::<T>::empty(),
            r.spec_last() == T::min_value_spec(),
    {
        let n = T::max_dist() + 1;
        let mut buckets: Vec<Vec<T>> = Vec::new();
        let mut i: usize = 0;
        while i < n
            invariant
                i <= n,
                buckets@.len() == i,
                forall|d: int| 0 <= d < i ==> (#[trigger] buckets@[d])@.len() == 0,
            decreases n - i,
        {
            buckets.push(Vec::new());
            i += 1;
        }
        proof {
            lemma_content_none(buckets@);
        }
        RadixHeap { buckets, last: T::min_value(), len: 0 }
    }

    /// Puts `item` in. It must not come before the element popped last.
    pub fn push(&mut self, item: T)
        requires
            old(self).wf(),
            old(self).spec_last().rank() <= item.rank(),
            old(self)@.len() < usize::MAX,
        ensures
            final(self).wf(),
            final(self)@ == old(self)@.insert(item),
            final(self).spec_last() == old(self).spec_last(),
    {
        self.len = self.len + 1;
        let d = self.last.radix_dist(&item);
        let ghost before = self.buckets@;
        self.buckets[d].push(item);
        proof {
            lemma_content_put(before, d as int, item, self.buckets@[d as int]);
            assert(self.buckets@ =~= before.update(d as int, self.buckets@[d as int]));
        }
    }

    /// Number of elements.
    pub fn len(&self) -> (r: usize)
        requires
            self.wf(),
        ensures
            r == self@.len(),
    {
        self.len
    }

    /// Whether there is no element.
    pub fn is_empty(&self) -> (r: bool)
        requires
            self.wf(),
        ensures
            r == (self@.len() == 0),
    {
        self.len == 0
    }

    /// The element popped last, or the least value where none was.
    pub fn last(&self) -> (r: &T)
        ensures
            *r == self.spec_last(),
    {
        &self.last
    }
}

impl<T: Radix> RadixHeap<T> {
    /// Takes out a least element, if there is an element.
    pub fn pop(&mut self) -> (r: Option<T>)
        requires
            old(self).wf(),
        ensures
            final(self).wf(),
            match r {
                Some(v) => {
                    &&& old(self)@.count(v) > 0
                    &&& forall|x: T| old(self)@.count(x) > 0 ==> v.rank() <= x.rank()
                    &&& final(self)@ == old(self)@.remove(v)
                    &&& final(self).spec_last().rank() == v.rank()
                },
                None => {
                    &&& old(self)@.len() == 0
                    &&& final(self)@ == old(self)@
                    &&& final(self).spec_last() == old(self).spec_last()
                },
            },
    {
        broadcast use vstd::seq_lib::group_to_multiset_ensures;

        let ghost start = self.buckets@;
        let ghost start_last = self.last;
        if self.buckets[0].len() > 0 {
            let r = self.buckets[0].pop().unwrap();
            proof {
                lemma_content_take(start, 0, self.buckets@[0]);
                assert(self.buckets@ =~= start.update(0, self.buckets@[0]));
                assert(r == start[0]@[start[0]@.len() - 1]);
                T::dist_zero(start_last, r);
                assert forall|x: T| content(start).count(x) > 0 implies r.rank() <= x.rank() by {
                    lemma_content_member(start, x);
                }
            }
            self.len = self.len - 1;
            return Some(r);
        }
        let n = self.buckets.len();
        let mut k: usize = 1;
        while k < n && self.buckets[k].len() == 0
            invariant
                self.buckets@ == start,
                n == start.len(),
                1 <= k <= n,
                forall|d: int| 0 <= d < k ==> (#[trigger] start[d])@.len() == 0,
            decreases n - k,
        {
            k += 1;
        }
        if k == n {
            proof {
                lemma_content_none(start);
            }
            return None;
        }
        let mut rak: Vec<T> = Vec::new();
        std::mem::swap(&mut rak, &mut self.buckets[k]);
        let ghost taken = rak@;
        let ghost cleared = self.buckets@;
        proof {
            assert(cleared =~= start.update(k as int, cleared[k as int]));
            lemma_content_clear(start, k as int, cleared[k as int]);
        }
        // the least of the bucket
        let mut m = rak[0];
        let ghost mut mi: int = 0;
        let mut i: usize = 1;
        while i < rak.len()
            invariant
                rak@ == taken,
                1 <= i <= taken.len(),
                0 <= mi < i,
                taken[mi] == m,
                forall|j: int| 0 <= j < i ==> m.rank() <= (#[trigger] taken[j]).rank(),
            decreases taken.len() - i,
        {
            if rak[i].before(&m) {
                m = rak[i];
                proof {
                    mi = i as int;
                }
            }
            i += 1;
        }
        self.last = m;
        proof {
            assert(start[k as int]@[mi] == m);
            assert forall|d: int, j: int|
                0 <= d < cleared.len() && 0 <= j < cleared[d]@.len() implies m.rank() <= (
            #[trigger] cleared[d]@[j]).rank() && m.dist(cleared[d]@[j]) == d by {
                let x = cleared[d]@[j];
                assert(d != k);
                assert(cleared[d] == start[d]);
                assert(start[d]@[j] == x);
                assert(d > k);
                T::dist_order(start_last, m, x);
            }
        }
        while rak.len() > 0
            invariant
                self.buckets@.len() == start.len(),
                start.len() == T::max_dist_spec() + 1,
                self.last == m,
                self.len == old(self).len,
                placed(self.buckets@, m),
                content(self.buckets@).add(rak@.to_multiset()) =~= content(start),
                forall|j: int| 0 <= j < rak@.len() ==> m.rank() <= (#[trigger] rak@[j]).rank(),
                self.buckets@[0]@.len() > 0 || (0 <= mi < rak@.len() && rak@[mi] == m),
            decreases rak@.len(),
        {
            let ghost rest = rak@;
            let ghost held = self.buckets@;
            let v = rak.pop().unwrap();
            let d = m.radix_dist(&v);
            self.buckets[d].push(v);
            proof {
                assert(v == rest[rest.len() - 1]);
                assert(rak@ =~= rest.remove(rest.len() - 1));
                lemma_content_put(held, d as int, v, self.buckets@[d as int]);
                assert(self.buckets@ =~= held.update(d as int, self.buckets@[d as int]));
                rest.to_multiset_ensures();
                assert(rest.contains(v));
                assert(rest.to_multiset().count(v) > 0);
                vstd::seq_lib::to_multiset_remove(rest, rest.len() - 1);
                assert(rak@ == rest.remove(rest.len() - 1));
                assert(rak@.to_multiset() =~= rest.to_multiset().remove(v));
                assert(content(held).insert(v).add(rest.to_multiset().remove(v)) =~= content(
                    held,
                ).add(rest.to_multiset()));
                if mi == rest.len() - 1 {
                    T::dist_zero(m, v);
                }
                assert forall|e: int, j: int|
                    0 <= e < self.buckets@.len() && 0 <= j < self.buckets@[e]@.len()
                        implies m.rank()
                    <= (#[trigger] self.buckets@[e]@[j]).rank() && m.dist(self.buckets@[e]@[j])
                    == e by {
                    if e == d && j == held[d as int]@.len() {
                    } else {
                        assert(self.buckets@[e]@[j] == held[e]@[j]);
                    }
                }
            }
        }
        let ghost filled = self.buckets@;
        let r = self.buckets[0].pop().unwrap();
        proof {
            assert(rak@.to_multiset() =~= Multiset::<T>::empty());
            lemma_content_take(filled, 0, self.buckets@[0]);
            assert(self.buckets@ =~= filled.update(0, self.buckets@[0]));
            assert(r == filled[0]@[filled[0]@.len() - 1]);
            T::dist_zero(m, r);
            assert forall|x: T| content(start).count(x) > 0 implies r.rank() <= x.rank() by {
                lemma_content_member(start, x);
                let (d, j) = choose|d: int, j: int|
                    0 <= d < start.len() && 0 <= j < start[d]@.len()
                        && #[trigger] start[d]@[j] == x;
                if d == k {
                    assert(taken[j] == x);
                } else {
                    assert(d > k);
                    T::dist_order(start_last, m, x);
                }
            }
        }
        self.len = self.len - 1;
        Some(r)
    }
}

/// What is left of a `RadixHeap`, handed out from the least element on.
pub struct RadixIter<T: Radix>(pub RadixHeap<T>);

impl<T: Radix> RadixIter<T> {
    /// Number of elements that are left.
    pub fn len(&self) -> (r: usize)
        requires
            self.0.wf(),
        ensures
            r == self.0@.len(),
    {
        self.0.len()
    }

    /// The next element: a least one of those that are left.
    pub fn next(&mut self) -> (r: Option<T>)
        requires
            old(self).0.wf(),
        ensures
            final(self).0.wf(),
            match r {
                Some(v) => {
                    &&& old(self).0@.count(v) > 0
                    &&& forall|x: T| old(self).0@.count(x) > 0 ==> v.rank() <= x.rank()
                    &&& final(self).0@ == old(self).0@.remove(v)
                },
                None => old(self).0@.len() == 0 && final(self).0@ == old(self).0@,
            },
    {
        self.0.pop()
    }
}

} // verus!
