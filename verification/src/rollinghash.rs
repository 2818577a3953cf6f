//! A rolling hash of byte strings: the hash of a concatenation is computed
//! from the hashes of its parts.

use std::ops::{Add, Sub};
use vstd::arithmetic::div_mod::{
    lemma_add_mod_noop, lemma_fundamental_div_mod, lemma_mod_multiples_vanish,
    lemma_mul_mod_noop_general, lemma_small_mod,
};
use vstd::arithmetic::power2::{lemma2_to64, lemma_pow2_unfold, pow2};
use vstd::prelude::*;
use vstd::std_specs::ops::{AddSpec, SubSpec};

verus! {

/// The modulus, `2^64 - 59`.
pub const MOD: u64 = 0xffff_ffff_ffff_ffc5;

/// `2^64` modulo `MOD`: what stands for 1 among the kept numbers.
pub const ONE: u64 = 59;

/// What stands for the base among the kept numbers.
pub const BASE: u64 = 0xf464_373a_9819_7da9;

/// `MULT * MOD + 1` is a multiple of `2^64`.
pub const MULT: u64 = 0xcbee_a4e1_a08a_d8f3;

/// The inverse of `2^64` modulo `MOD`: `RINV * 2^64 == MULT * MOD + 1`.
pub const RINV: u64 = 0xcbee_a4e1_a08a_d8c4;

/// What a kept number `a` stands for: `a / 2^64` modulo `MOD`.
pub open spec fn plain(a: int) -> int {
    (a * RINV) % (MOD as int)
}

/// The base by which each further byte is weighted.
pub open spec fn base() -> int {
    plain(BASE as int)
}

proof fn lemma_constants()
    ensures
        RINV * 0x1_0000_0000_0000_0000 == MULT * MOD + 1,
        plain(ONE as int) == 1,
{
    assert(0xcbee_a4e1_a08a_d8c4 * 0x1_0000_0000_0000_0000 == 0xcbee_a4e1_a08a_d8f3
        * 0xffff_ffff_ffff_ffc5 + 1);
    assert((59 * 0xcbee_a4e1_a08a_d8c4) % 0xffff_ffff_ffff_ffc5 == 1);
}

/// The number that stands for `a / 2^64`: `a` is brought to a multiple of
/// `2^64` by adding a multiple of `MOD`, and divided.
fn mr(a: u128) -> (r: u64)
    requires
        a < MOD * 0x1_0000_0000_0000_0000,
    ensures
        r == plain(a as int),
        r < MOD,
{
    let low: u128 = a & 0xffff_ffff_ffff_ffff;
    let lo: u64 = low as u64;
    let m: u64 = MULT.wrapping_mul(lo);
    assert(m * MOD <= 0xffff_ffff_ffff_ffff * 0xffff_ffff_ffff_ffc5) by (nonlinear_arith)
        requires
            m <= 0xffff_ffff_ffff_ffff,
            MOD == 0xffff_ffff_ffff_ffc5,
    ;
    let t: u128 = (m as u128) * (MOD as u128);
    let b: u128 = a.wrapping_add(t);
    let f: bool = b < a;
    let top: u128 = b >> 64;
    let q: u64 = top as u64;
    let ghost k = 0x1_0000_0000_0000_0000int;
    let ghost hi = a as int / k;
    let ghost c = (MULT * lo) / k;
    let ghost whole = hi + RINV * lo - c * MOD;
    proof {
        lemma_constants();
        assert(low == a % 0x1_0000_0000_0000_0000) by (bit_vector)
            requires
                low == a & 0xffff_ffff_ffff_ffff,
        ;
        assert(top == b / 0x1_0000_0000_0000_0000 && top <= 0xffff_ffff_ffff_ffff) by (bit_vector)
            requires
                top == b >> 64,
        ;
        lemma_fundamental_div_mod(a as int, k);
        lemma_fundamental_div_mod(MULT * lo, k);
        assert(m == (MULT * lo) % k);
        let s = a + t;
        // s == k * whole
        assert(s == k * whole) by (nonlinear_arith)
            requires
                s == a + m * MOD,
                a == k * hi + lo,
                MULT * lo == k * c + m,
                RINV * k == MULT * MOD + 1,
                whole == hi + RINV * lo - c * MOD,
        ;
        assert(0 <= whole < 2 * MOD) by (nonlinear_arith)
            requires
                s == k * whole,
                0 <= s,
                s < MOD * k + k * MOD,
                k == 0x1_0000_0000_0000_0000,
        ;
        // a * RINV == whole + MOD * (c + hi * MULT)
        assert(a * RINV == whole + MOD * (c + hi * MULT)) by (nonlinear_arith)
            requires
                a == k * hi + lo,
                RINV * k == MULT * MOD + 1,
                whole == hi + RINV * lo - c * MOD,
        ;
        lemma_mod_multiples_vanish(c + hi * MULT, whole, MOD as int);
        assert((MOD * (c + hi * MULT) + whole) % (MOD as int) == whole % (MOD as int));
        assert(plain(a as int) == whole % (MOD as int));
        // what the machine computed
        if s >= 0x1_0000_0000_0000_0000_0000_0000_0000_0000 {
            assert(b == s - 0x1_0000_0000_0000_0000_0000_0000_0000_0000);
            assert(whole >= k) by (nonlinear_arith)
                requires
                    s == k * whole,
                    s >= k * k,
                    k == 0x1_0000_0000_0000_0000,
            ;
            assert(b == k * (whole - k)) by (nonlinear_arith)
                requires
                    b == s - k * k,
                    s == k * whole,
            ;
            vstd::arithmetic::div_mod::lemma_div_multiples_vanish(whole - k, k);
            assert(q == whole - k);
            lemma_mod_multiples_vanish(-1, whole, MOD as int);
            lemma_small_mod((whole - MOD) as nat, MOD as nat);
        } else {
            assert(b == s);
            vstd::arithmetic::div_mod::lemma_div_multiples_vanish(whole, k);
            assert(q == whole);
            if whole >= MOD {
                lemma_mod_multiples_vanish(-1, whole, MOD as int);
                lemma_small_mod((whole - MOD) as nat, MOD as nat);
            } else {
                lemma_small_mod(whole as nat, MOD as nat);
            }
        }
    }
    if f || q >= MOD {
        q.wrapping_sub(MOD)
    } else {
        q
    }
}

/// The number that stands for the product of what `a` and `b` stand for.
fn mul_mr(a: u64, b: u64) -> (r: u64)
    requires
        a < MOD,
        b < MOD,
    ensures
        r == plain(a * b),
        r < MOD,
{
    assert(a * b < MOD * 0x1_0000_0000_0000_0000) by (nonlinear_arith)
        requires
            a < MOD,
            b < 0x1_0000_0000_0000_0000,
    ;
    mr((a as u128) * (b as u128))
}

/// The sum modulo `MOD`.
fn add_mod(a: u64, b: u64) -> (r: u64)
    requires
        a < MOD,
        b < MOD,
    ensures
        r == (a + b) % (MOD as int),
        r < MOD,
{
    let sum: u128 = a as u128 + b as u128;
    proof {
        if sum >= MOD {
            lemma_mod_multiples_vanish(-1, sum as int, MOD as int);
            lemma_small_mod((sum - MOD) as nat, MOD as nat);
        } else {
            lemma_small_mod(sum as nat, MOD as nat);
        }
    }
    if sum >= MOD as u128 {
        (sum - MOD as u128) as u64
    } else {
        sum as u64
    }
}

/// The difference modulo `MOD`.
fn sub_mod(a: u64, b: u64) -> (r: u64)
    requires
        a < MOD,
        b < MOD,
    ensures
        r == (a - b) % (MOD as int),
        r < MOD,
{
    proof {
        if a < b {
            lemma_mod_multiples_vanish(1, a - b, MOD as int);
            lemma_small_mod((a + MOD - b) as nat, MOD as nat);
        } else {
            lemma_small_mod((a - b) as nat, MOD as nat);
        }
    }
    if a < b {
        MOD - (b - a)
    } else {
        a - b
    }
}

/// The kept number that stands for the product of what `x` and `y` stand for.
pub open spec fn mont(x: int, y: int) -> int {
    plain(x * y)
}

/// The kept number that stands for the `n`-th power of the base.
pub open spec fn unit_at(n: nat) -> int
    decreases n,
{
    if n == 0 {
        ONE as int
    } else {
        mont(unit_at((n - 1) as nat), BASE as int)
    }
}

/// The hash of `s`: the sum of its bytes, the `i`-th weighted by the `i`-th
/// power of the base, modulo `MOD`.
pub open spec fn digest(s: Seq<u8>) -> int
    decreases s.len(),
{
    if s.len() == 0 {
        0
    } else {
        (digest(s.drop_last()) + mont(unit_at((s.len() - 1) as nat), s.last() as int)) % (
        MOD as int)
    }
}

proof fn lemma_mont_range(x: int, y: int)
    ensures
        0 <= mont(x, y) < MOD,
{
}

proof fn lemma_mont_assoc(x: int, y: int, z: int)
    ensures
        mont(mont(x, y), z) == mont(x, mont(y, z)),
{
    let m = MOD as int;
    let r = RINV as int;
    // ((x y r % m) z r) % m == (x y r z r) % m
    lemma_mul_mod_noop_general(x * y * r, z * r, m);
    assert((x * y * r % m) * z * r == (x * y * r % m) * (z * r)) by (nonlinear_arith);
    // (x (y z r % m) r) % m == (x r y z r) % m
    lemma_mul_mod_noop_general(x * r, y * z * r, m);
    assert(x * (y * z * r % m) * r == (x * r) * (y * z * r % m)) by (nonlinear_arith);
    assert((x * y * r) * (z * r) == (x * r) * (y * z * r)) by (nonlinear_arith);
}

proof fn lemma_mont_dist(x: int, y: int, z: int)
    ensures
        mont(x, (y + z) % (MOD as int)) == (mont(x, y) + mont(x, z)) % (MOD as int),
{
    let m = MOD as int;
    let r = RINV as int;
    lemma_mul_mod_noop_general(x * r, y + z, m);
    assert(x * ((y + z) % m) * r == (x * r) * ((y + z) % m)) by (nonlinear_arith);
    assert((x * r) * (y + z) == x * y * r + x * z * r) by (nonlinear_arith);
    lemma_add_mod_noop(x * y * r, x * z * r, m);
}

proof fn lemma_mont_one(x: int)
    requires
        0 <= x < MOD,
    ensures
        mont(x, ONE as int) == x,
{
    let m = MOD as int;
    lemma_constants();
    lemma_mul_mod_noop_general(x, ONE * RINV, m);
    assert(x * ONE * RINV == x * (ONE * RINV)) by (nonlinear_arith);
    assert(x * ((ONE * RINV) % m) == x);
    lemma_small_mod(x as nat, m as nat);
}

proof fn lemma_unit_range(n: nat)
    ensures
        0 <= unit_at(n) < MOD,
{
}

proof fn lemma_digest_range(s: Seq<u8>)
    ensures
        0 <= digest(s) < MOD,
{
}

/// The unit of a sum of lengths is the product of the units.
proof fn lemma_unit_adds(n: nat, k: nat)
    ensures
        unit_at(n + k) == mont(unit_at(n), unit_at(k)),
    decreases k,
{
    lemma_unit_range(n);
    if k == 0 {
        lemma_mont_one(unit_at(n));
    } else {
        lemma_unit_adds(n, (k - 1) as nat);
        lemma_mont_assoc(unit_at(n), unit_at((k - 1) as nat), BASE as int);
    }
}

/// The hash of a concatenation, from the hashes of its parts.
proof fn lemma_digest_concat(a: Seq<u8>, b: Seq<u8>)
    ensures
        digest(a + b) == (digest(a) + mont(unit_at(a.len()), digest(b))) % (MOD as int),
    decreases b.len(),
{
    let m = MOD as int;
    let ua = unit_at(a.len());
    lemma_digest_range(a);
    if b.len() == 0 {
        assert(a + b =~= a);
        assert(ua * 0 == 0);
        lemma_small_mod(0, m as nat);
        lemma_small_mod(digest(a) as nat, m as nat);
    } else {
        let init = b.drop_last();
        let x = b.last() as int;
        assert((a + b).drop_last() =~= a + init);
        lemma_digest_concat(a, init);
        lemma_unit_adds(a.len(), init.len());
        let ub = unit_at(init.len());
        lemma_mont_assoc(ua, ub, x);
        lemma_mont_dist(ua, digest(init), mont(ub, x));
        // ((da + p) % m + q) % m == (da + (p + q) % m) % m
        let p = mont(ua, digest(init));
        let q = mont(ua, mont(ub, x));
        lemma_add_mod_noop(digest(a) + p, q, m);
        lemma_add_mod_noop(digest(a), p + q, m);
        lemma_mont_range(ua, mont(ub, x));
        lemma_small_mod(q as nat, m as nat);
        lemma_small_mod(digest(a) as nat, m as nat);
    }
}

/// The hash of a byte string together with what is needed to append to it.
#[derive(Clone, Copy, PartialEq, Eq, Hash, Debug)]
pub struct RollingHash(u64, u64);

impl RollingHash {
    /// The hash of the string.
    pub closed spec fn hash(self) -> int {
        self.0 as int
    }

    /// The kept number that stands for the base to the power of the
    /// string's length.
    pub closed spec fn unit(self) -> int {
        self.1 as int
    }

    /// Both numbers are below the modulus.
    pub closed spec fn wf(self) -> bool {
        self.0 < MOD && self.1 < MOD
    }

    /// The hash of `s`.
    pub closed spec fn of(s: Seq<u8>) -> RollingHash {
        RollingHash(digest(s) as u64, unit_at(s.len()) as u64)
    }

    /// What `of` holds.
    pub proof fn lemma_of(s: Seq<u8>)
        ensures
            Self::of(s).wf(),
            Self::of(s).hash() == digest(s),
            Self::of(s).unit() == unit_at(s.len()),
    {
        lemma_digest_range(s);
        lemma_unit_range(s.len());
    }

    /// The hash of the empty string.
    pub fn new() -> (r: Self)
        ensures
            r.wf(),
            r == Self::of(Seq::empty()),
    {
        RollingHash(0, ONE)
    }

    /// The hash of `bytes`.
    pub fn from_bytes(bytes: &[u8]) -> (r: Self)
        ensures
            r.wf(),
            r == Self::of(bytes@),
    {
        let mut r: u64 = ONE;
        let mut h: u64 = 0;
        let mut i: usize = 0;
        while i < bytes.len()
            invariant
                i <= bytes@.len(),
                h < MOD,
                r < MOD,
                h == digest(bytes@.subrange(0, i as int)),
                r == unit_at(i as nat),
            decreases bytes@.len() - i,
        {
            proof {
                assert(bytes@.subrange(0, i + 1).drop_last() =~= bytes@.subrange(0, i as int));
            }
            h = add_mod(h, mul_mr(r, bytes[i] as u64));
            r = mul_mr(r, BASE);
            i += 1;
        }
        proof {
            assert(bytes@.subrange(0, i as int) =~= bytes@);
        }
        RollingHash(h, r)
    }
}

impl Add for RollingHash {
    type Output = Self;

    /// The hash of the string of `self` followed by that of `rhs`.
    fn add(self, rhs: Self) -> (r: Self) {
        RollingHash(add_mod(self.0, mul_mr(self.1, rhs.0)), mul_mr(self.1, rhs.1))
    }
}

impl vstd::std_specs::ops::AddSpecImpl for RollingHash {
    open spec fn obeys_add_spec() -> bool {
        true
    }

    open spec fn add_req(self, rhs: Self) -> bool {
        self.wf() && rhs.wf()
    }

    closed spec fn add_spec(self, rhs: Self) -> Self {
        RollingHash(
            ((self.0 + mont(self.1 as int, rhs.0 as int)) % (MOD as int)) as u64,
            mont(self.1 as int, rhs.1 as int) as u64,
        )
    }
}

/// What the sum of two hashes holds.
pub proof fn lemma_add(a: RollingHash, b: RollingHash)
    requires
        a.wf(),
        b.wf(),
    ensures
        a.add_spec(b).wf(),
        a.add_spec(b).hash() == (a.hash() + mont(a.unit(), b.hash())) % (MOD as int),
        a.add_spec(b).unit() == mont(a.unit(), b.unit()),
{
}

/// The sum of the hashes of two strings is the hash of the two strings
/// joined.
pub proof fn lemma_add_concat(a: Seq<u8>, b: Seq<u8>)
    ensures
        RollingHash::of(a).add_spec(RollingHash::of(b)) == RollingHash::of(a + b),
{
    lemma_digest_concat(a, b);
    lemma_unit_adds(a.len(), b.len());
    lemma_digest_range(a);
    lemma_digest_range(b);
    lemma_unit_range(a.len());
    lemma_unit_range(b.len());
}

/// The kept number that stands for the `e`-th power of what `r` stands for.
pub open spec fn mont_pow(r: int, e: nat) -> int
    decreases e,
{
    if e == 0 {
        ONE as int
    } else {
        mont(mont_pow(r, (e - 1) as nat), r)
    }
}

proof fn lemma_mont_pow_range(r: int, e: nat)
    ensures
        0 <= mont_pow(r, e) < MOD,
{
}

proof fn lemma_mont_pow_one(r: int)
    requires
        0 <= r < MOD,
    ensures
        mont_pow(r, 1) == r,
{
    lemma_mont_one(r);
    assert(mont_pow(r, 0) == ONE);
    assert(ONE * r == r * ONE) by (nonlinear_arith);
}

proof fn lemma_mont_pow_adds(r: int, a: nat, b: nat)
    ensures
        mont_pow(r, a + b) == mont(mont_pow(r, a), mont_pow(r, b)),
    decreases b,
{
    lemma_mont_pow_range(r, a);
    if b == 0 {
        lemma_mont_one(mont_pow(r, a));
    } else {
        lemma_mont_pow_adds(r, a, (b - 1) as nat);
        lemma_mont_assoc(mont_pow(r, a), mont_pow(r, (b - 1) as nat), r);
    }
}

/// The product of two powers of what `r` stands for.
fn mul_pow(x: u64, y: u64, Ghost(r): Ghost<int>, Ghost(ex): Ghost<nat>,
    Ghost(ey): Ghost<nat>) -> (z:
    u64)
    requires
        x == mont_pow(r, ex),
        y == mont_pow(r, ey),
    ensures
        z == mont_pow(r, ex + ey),
        z < MOD,
{
    proof {
        lemma_mont_pow_range(r, ex);
        lemma_mont_pow_range(r, ey);
        lemma_mont_pow_adds(r, ex, ey);
    }
    mul_mr(x, y)
}

/// `v` squared `b` times.
fn pow_2_pow(v: u64, b: u8, Ghost(r): Ghost<int>, Ghost(e): Ghost<nat>) -> (z: u64)
    requires
        v == mont_pow(r, e),
    ensures
        z == mont_pow(r, e * pow2(b as nat)),
        z < MOD,
{
    let mut v = v;
    let mut i: u8 = 0;
    proof {
        lemma2_to64();
        lemma_mont_pow_range(r, e);
        assert(e * 1 == e);
    }
    while i < b
        invariant
            i <= b,
            v < MOD,
            v == mont_pow(r, e * pow2(i as nat)),
        decreases b - i,
    {
        proof {
            lemma_pow2_unfold((i + 1) as nat);
            assert(e * pow2(i as nat) + e * pow2(i as nat) == e * (2 * pow2(i as nat)))
                by (nonlinear_arith);
        }
        v = mul_pow(v, v, Ghost(r), Ghost(e * pow2(i as nat)), Ghost(e * pow2(i as nat)));
        i += 1;
    }
    v
}

/// `r` to the power `MOD - 2`, by a fixed chain of products and squarings.
fn pow_mod_minus_two(r: u64) -> (z: u64)
    requires
        r < MOD,
    ensures
        z == mont_pow(r as int, (MOD - 2) as nat),
        z < MOD,
{
    let ghost g = r as int;
    proof {
        lemma_mont_pow_one(g);
        lemma2_to64();
    }
    // r^3
    let r2 = mul_pow(r, r, Ghost(g), Ghost(1), Ghost(1));
    let r3 = mul_pow(r, r2, Ghost(g), Ghost(1), Ghost(2));
    // r^(2^3 - 1)
    let s = mul_pow(r3, r3, Ghost(g), Ghost(3), Ghost(3));
    let rt = mul_pow(r, s, Ghost(g), Ghost(1), Ghost(6));
    // r^(2^6 - 1)
    let s = pow_2_pow(rt, 3, Ghost(g), Ghost(7));
    let rt = mul_pow(rt, s, Ghost(g), Ghost(7), Ghost(56));
    // r^(2^7 - 1)
    let s = mul_pow(rt, rt, Ghost(g), Ghost(63), Ghost(63));
    let rt = mul_pow(r, s, Ghost(g), Ghost(1), Ghost(126));
    // r^(2^14 - 1)
    let s = pow_2_pow(rt, 7, Ghost(g), Ghost(127));
    let rt = mul_pow(rt, s, Ghost(g), Ghost(127), Ghost(16256));
    // r^(2^28 - 1)
    let s = pow_2_pow(rt, 14, Ghost(g), Ghost(16383));
    let rt = mul_pow(rt, s, Ghost(g), Ghost(16383), Ghost(268419072));
    // r^(2^29 - 1)
    let s = mul_pow(rt, rt, Ghost(g), Ghost(268435455), Ghost(268435455));
    let rt = mul_pow(r, s, Ghost(g), Ghost(1), Ghost(536870910));
    // r^(2^58 - 1)
    let s = pow_2_pow(rt, 29, Ghost(g), Ghost(536870911));
    let rt = mul_pow(rt, s, Ghost(g), Ghost(536870911), Ghost(288230375614840832));
    // r^(2^64 - 61)
    let s = pow_2_pow(rt, 6, Ghost(g), Ghost(288230376151711743));
    mul_pow(r3, s, Ghost(g), Ghost(3), Ghost(18446744073709551552))
}

impl Sub for RollingHash {
    type Output = Self;

    /// The hash of the string of `self` without the string of `rhs` at its
    /// end, where `self` ends with it.
    fn sub(self, rhs: Self) -> (r: Self) {
        let finv = pow_mod_minus_two(rhs.1);
        let nb = mul_mr(self.1, finv);
        RollingHash(sub_mod(self.0, mul_mr(nb, rhs.0)), nb)
    }
}

impl vstd::std_specs::ops::SubSpecImpl for RollingHash {
    open spec fn obeys_sub_spec() -> bool {
        true
    }

    open spec fn sub_req(self, rhs: Self) -> bool {
        self.wf() && rhs.wf()
    }

    closed spec fn sub_spec(self, rhs: Self) -> Self {
        let unit = mont(self.1 as int, mont_pow(rhs.1 as int, (MOD - 2) as nat));
        RollingHash(((self.0 - mont(unit, rhs.0 as int)) % (MOD as int)) as u64, unit as u64)
    }
}

/// What the difference of two hashes holds: the unit of the first divided
/// by that of the second, where `MOD - 2` is the power that inverts, and the
/// hash of the first less that of the second weighted by the new unit.
pub proof fn lemma_sub(a: RollingHash, b: RollingHash)
    requires
        a.wf(),
        b.wf(),
    ensures
        a.sub_spec(b).wf(),
        a.sub_spec(b).unit() == mont(a.unit(), mont_pow(b.unit(), (MOD - 2) as nat)),
        a.sub_spec(b).hash() == (a.hash() - mont(a.sub_spec(b).unit(), b.hash())) % (MOD as int),
{
}

} // verus!
