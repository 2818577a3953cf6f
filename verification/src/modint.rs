//! Integers modulo a constant `N`.

use std::ops::{Add, Div, Mul, Neg, Sub};
use vstd::arithmetic::div_mod::{
    lemma_fundamental_div_mod, lemma_mod_multiples_vanish, lemma_mul_mod_noop_general,
    lemma_small_mod,
};
use vstd::arithmetic::power::{lemma_pow0, lemma_pow1, lemma_pow_adds, lemma_pow_mod_noop, pow};
use vstd::prelude::*;
use vstd::std_specs::ops::{AddSpecImpl, DivSpecImpl, MulSpecImpl, NegSpecImpl, SubSpecImpl};

verus! {

/// Dividing by a proper factor gives a smaller, positive number.
pub proof fn lemma_divide(n: nat, p: nat)
    requires
        p >= 2,
        n > 0,
        n % p == 0,
    ensures
        1 <= n / p < n,
        p * (n / p) == n,
{
    lemma_fundamental_div_mod(n as int, p as int);
    vstd::arithmetic::div_mod::lemma_div_decreases(n as int, p as int);
    if n / p == 0 {
        assert(p * (n / p) == 0) by (nonlinear_arith)
            requires
                n / p == 0,
        ;
    }
}

/// The greatest power of `p` that divides `n`.
pub open spec fn power_part(n: nat, p: nat) -> nat
    decreases n via power_part_decreases
{
    if p >= 2 && n > 0 && n % p == 0 {
        p * power_part(n / p, p)
    } else {
        1
    }
}

#[via_fn]
proof fn power_part_decreases(n: nat, p: nat) {
    if p >= 2 && n > 0 && n % p == 0 {
        lemma_divide(n, p);
    }
}

/// `n` without its factors `p`.
pub open spec fn strip(n: nat, p: nat) -> nat
    decreases n via strip_decreases
{
    if p >= 2 && n > 0 && n % p == 0 {
        strip(n / p, p)
    } else {
        n
    }
}

#[via_fn]
proof fn strip_decreases(n: nat, p: nat) {
    if p >= 2 && n > 0 && n % p == 0 {
        lemma_divide(n, p);
    }
}

/// What the prime `p` contributes to the totient of `n`: `(p - 1) * p^(k - 1)`
/// where `p^k` is the greatest power of `p` that divides `n`, and 1 where
/// `p` does not divide `n`.
pub open spec fn share(n: nat, p: nat) -> nat {
    if p >= 2 && n > 0 && n % p == 0 {
        ((p - 1) * power_part(n / p, p)) as nat
    } else {
        1
    }
}

proof fn lemma_strip_le(n: nat, p: nat)
    ensures
        strip(n, p) <= n,
        n > 0 ==> strip(n, p) > 0,
    decreases n,
{
    if p >= 2 && n > 0 && n % p == 0 {
        lemma_divide(n, p);
        lemma_strip_le(n / p, p);
    }
}

/// What is left of a multiple of `p` without its factors `p` is less.
pub proof fn lemma_strip_below(n: nat, p: nat)
    requires
        p >= 2,
        n >= 1,
        n % p == 0,
    ensures
        strip(n, p) < n,
{
    lemma_divide(n, p);
    lemma_strip_le(n / p, p);
}

/// The totient of `n`, where `n` has no prime factor below `i`: the product
/// of the shares of `i`, `i + 2`, `i + 4` and so on up to the square root
/// of what is left, times the share of the one prime that may remain.
pub open spec fn totient_from(n: nat, i: nat) -> nat
    decreases n, n + 2 - i when i >= 2 && n >= 1 via totient_from_decreases
{
    if i * i > n {
        if n != 1 {
            (n - 1) as nat
        } else {
            1
        }
    } else {
        share(n, i) * totient_from(strip(n, i), i + 2)
    }
}

#[via_fn]
proof fn totient_from_decreases(n: nat, i: nat) {
    if i * i <= n {
        lemma_strip_le(n, i);
        assert(i <= n) by (nonlinear_arith)
            requires
                i * i <= n,
                i >= 2,
        ;
        assert(strip(n, i) >= 1);
        assert(strip(n, i) + 2 - (i + 2) < n + 2 - i);
    }
}

/// Euler's totient of `n`, by its prime factors: the share of 2 times the
/// shares of the odd primes.
pub open spec fn phi_spec(n: nat) -> nat {
    share(n, 2) * totient_from(strip(n, 2), 3)
}

/// Divides `n` by `p` as often as it goes, multiplying `r` by `p` each time.
fn strip_factor(n: u32, p: u32, r: u32, Ghost(n0): Ghost<nat>) -> (out: (u32, u32))
    requires
        p >= 2,
        n >= 1,
        r >= 1,
        r * n <= n0 <= u32::MAX,
    ensures
        out.0 == strip(n as nat, p as nat),
        out.1 == r * power_part(n as nat, p as nat),
        out.0 >= 1,
        out.1 >= 1,
        out.1 * out.0 <= n0,
{
    let ghost n1 = n as nat;
    let ghost r1 = r as nat;
    let mut n = n;
    let mut r = r;
    while n % p == 0
        invariant
            p >= 2,
            n >= 1,
            r >= 1,
            r * n <= n0 <= u32::MAX,
            strip(n as nat, p as nat) == strip(n1, p as nat),
            r * power_part(n as nat, p as nat) == r1 * power_part(n1, p as nat),
        decreases n,
    {
        proof {
            lemma_divide(n as nat, p as nat);
            assert(r * p * (n / p) == r * (p * (n / p))) by (nonlinear_arith);
            assert(r * p >= 1 && r * p <= r * p * (n / p)) by (nonlinear_arith)
                requires
                    r >= 1,
                    p >= 2,
                    n / p >= 1,
            ;
            assert(r * (p * power_part((n / p) as nat, p as nat)) == (r * p) * power_part(
                (n / p) as nat,
                p as nat,
            )) by (nonlinear_arith);
        }
        n = n / p;
        r = r * p;
    }
    assert(power_part(n as nat, p as nat) == 1);
    assert(r * 1 == r);
    (n, r)
}

/// Euler's totient of `n`, found by trial division.
pub(crate) fn phi_const(n: u32) -> (r: u32)
    requires
        n >= 1,
    ensures
        r == phi_spec(n as nat),
{
    let ghost n0 = n as nat;
    let mut n = n;
    let mut r: u32 = 1;
    if n % 2 == 0 {
        let (m, q) = strip_factor(n / 2, 2, 1, Ghost(n0));
        n = m;
        r = q;
    }
    assert(r == share(n0, 2));
    assert(n == strip(n0, 2));
    let mut i: u32 = 3;
    assert((i as u64) * (i as u64) == 9) by (nonlinear_arith)
        requires
            i == 3,
    ;
    while (i as u64) * (i as u64) <= n as u64
        invariant
            (i as u64) * (i as u64) <= 0xffff_ffff_ffff,
            n >= 1,
            r >= 1,
            i >= 3,
            r * n <= n0 <= u32::MAX,
            r * totient_from(n as nat, i as nat) == phi_spec(n0),
            i <= 65537,
        decreases n + 65540 - i,
    {
        let ghost before = n as nat;
        let ghost kept = r as nat;
        if n % i == 0 {
            proof {
                lemma_divide(n as nat, i as nat);
                assert(r * (i - 1) * (n / i) <= r * (i * (n / i))) by (nonlinear_arith)
                    requires
                        r >= 1,
                        i >= 3,
                        n / i >= 0,
                ;
                assert(r * (i - 1) >= 1 && r * (i - 1) <= r * (i - 1) * (n / i))
                    by (nonlinear_arith)
                    requires
                        r >= 1,
                        i >= 3,
                        n / i >= 1,
                ;
            }
            let (m, q) = strip_factor(n / i, i, r * (i - 1), Ghost(n0));
            n = m;
            r = q;
            proof {
                assert(q == kept * share(before, i as nat)) by (nonlinear_arith)
                    requires
                        q == (kept * (i - 1)) * power_part((before / (i as nat)) as nat, i as nat),
                        share(before, i as nat) == (i - 1) * power_part(
                            (before / (i as nat)) as nat,
                            i as nat,
                        ),
                ;
            }
        }
        proof {
            assert(n == strip(before, i as nat));
            if before % (i as nat) != 0 {
                assert(share(before, i as nat) == 1);
                assert(kept * 1 == kept);
            }
            assert(r == kept * share(before, i as nat));
            assert(kept * (share(before, i as nat) * totient_from(n as nat,
                (i + 2) as nat)) == (kept
                * share(before, i as nat)) * totient_from(n as nat, (i + 2) as nat))
                by (nonlinear_arith);
            lemma_strip_le(before, i as nat);
            assert(i < 65536) by (nonlinear_arith)
                requires
                    i * i <= before,
                    before <= u32::MAX,
            ;
            assert((i + 2) * (i + 2) <= 0xffff_ffff_ffff) by (nonlinear_arith)
                requires
                    i < 65536,
            ;
        }
        i = i + 2;
    }
    if n != 1 {
        proof {
            assert(r * (n - 1) <= r * n) by (nonlinear_arith)
                requires
                    r >= 1,
                    n >= 1,
            ;
        }
        r = r * (n - 1);
    }
    r
}

/// `a * b^s` modulo `n` can be computed one bit of `s` at a time.
proof fn lemma_pow_step(a: int, b: int, s: nat, n: int)
    requires
        n > 0,
        s > 0,
    ensures
        ((if s % 2 == 1 {
            (a * b) % n
        } else {
            a
        }) * pow((b * b) % n, s / 2)) % n == (a * pow(b, s)) % n,
{
    let h = s / 2;
    let sq = pow((b * b) % n, h);
    lemma_pow_mod_noop(b * b, h, n);
    assert(sq % n == pow(b * b, h) % n);
    // pow(b * b, h) == pow(b, 2 * h)
    lemma_pow1(b);
    lemma_pow_adds(b, 1, 1);
    assert(pow(b, 2) == b * b);
    vstd::arithmetic::power::lemma_pow_multiplies(b, 2, h);
    assert(pow(b * b, h) == pow(b, 2 * h));
    if s % 2 == 1 {
        assert(s == 2 * h + 1);
        lemma_pow_adds(b, 1, 2 * h);
        assert(pow(b, s) == b * pow(b, 2 * h));
        lemma_mul_mod_noop_general(a * b, sq, n);
        lemma_mul_mod_noop_general(a * b, pow(b, 2 * h), n);
        assert((a * b) * pow(b, 2 * h) == a * (b * pow(b, 2 * h))) by (nonlinear_arith);
    } else {
        assert(s == 2 * h);
        lemma_mul_mod_noop_general(a, sq, n);
        lemma_mul_mod_noop_general(a, pow(b, 2 * h), n);
    }
}

/// An integer modulo `N`, kept as its least non-negative residue.
#[derive(Clone, Copy, PartialEq, Eq, Hash)]
pub struct ModInt<const N: u32>(pub u32);

impl<const N: u32> ModInt<N> {
    /// The residue that is kept.
    pub open spec fn spec_val(self) -> u32 {
        self.0
    }

    /// The residue is below the modulus.
    pub open spec fn wf(self) -> bool {
        self.spec_val() < N
    }

    /// `a * b^s` modulo `N`.
    pub open spec fn mul_pow_spec(a: u32, b: u32, s: u32) -> int {
        (a * pow(b as int, s as nat)) % (N as int)
    }

    /// The residue of `val`.
    pub fn new(val: u32) -> (r: Self)
        requires
            N > 0,
        ensures
            r.wf(),
            r.spec_val() == val % N,
    {
        ModInt(val % N)
    }

    /// The residue, in `0..N`.
    pub fn val(self) -> (r: u32)
        ensures
            r == self.spec_val(),
    {
        self.0
    }

    /// `self * b^s`.
    fn mul_pow(self, b: Self, s: u32) -> (r: Self)
        requires
            N > 0,
            self.wf(),
            b.wf(),
        ensures
            r.wf(),
            r.spec_val() == Self::mul_pow_spec(self.spec_val(), b.spec_val(), s),
    {
        let ghost target = Self::mul_pow_spec(self.0, b.0, s);
        let mut r = self;
        let mut b = b;
        let mut s = s;
        while s != 0
            invariant
                N > 0,
                r.wf(),
                b.wf(),
                Self::mul_pow_spec(r.0, b.0, s) == target,
            decreases s,
        {
            proof {
                lemma_pow_step(r.0 as int, b.0 as int, s as nat, N as int);
                assert(s & 1 == s % 2) by (bit_vector);
                assert(s >> 1 == s / 2) by (bit_vector);
            }
            if s & 1 == 1 {
                r = r * b;
            }
            b = b * b;
            s = s >> 1;
        }
        proof {
            lemma_pow0(b.0 as int);
            lemma_small_mod(r.0 as nat, N as nat);
        }
        r
    }

    /// `self` to the power `s`.
    pub fn pow(&self, s: u32) -> (r: Self)
        requires
            N > 0,
            self.wf(),
        ensures
            r.wf(),
            r.spec_val() == pow(self.spec_val() as int, s as nat) % (N as int),
    {
        let one = ModInt::<N>::new(1);
        let r = one.mul_pow(*self, s);
        proof {
            let p = pow(self.0 as int, s as nat);
            lemma_mul_mod_noop_general(1, p, N as int);
            assert((1int % (N as int)) * (p % (N as int)) == (one.0 as int) * (p % (N as int)));
            lemma_mul_mod_noop_general(one.0 as int, p, N as int);
        }
        r
    }

    /// `self` to the power `phi(N) - 1`: the inverse of `self` where `self`
    /// and `N` have no common factor, by Euler's theorem.
    pub fn inv(&self) -> (r: Self)
        requires
            N > 0,
            self.wf(),
        ensures
            r.wf(),
            r.spec_val() == pow(self.spec_val() as int, (phi_spec(N as nat) - 1) as nat) % (
            N as int),
            crate::euler::coprime(self.spec_val() as nat, N as nat) ==> (self.spec_val()
                * r.spec_val()) % (N as int) == 1int % (N as int),
    {
        let phi = phi_const(N);
        proof {
            lemma_phi_positive(N as nat);
            if crate::euler::coprime(self.0 as nat, N as nat) {
                let power = pow(self.0 as int, (phi - 1) as nat);
                crate::euler::lemma_inverse_power(self.0 as nat, N as nat);
                lemma_mul_mod_noop_general(self.0 as int, power, N as int);
                lemma_small_mod(self.0 as nat, N as nat);
            }
        }
        self.pow(phi - 1)
    }
}

proof fn lemma_power_part_positive(n: nat, p: nat)
    ensures
        power_part(n, p) >= 1,
    decreases n,
{
    if p >= 2 && n > 0 && n % p == 0 {
        lemma_divide(n, p);
        lemma_power_part_positive(n / p, p);
        assert(p * power_part(n / p, p) >= 1) by (nonlinear_arith)
            requires
                p >= 2,
                power_part(n / p, p) >= 1,
        ;
    }
}

proof fn lemma_share_positive(n: nat, p: nat)
    ensures
        share(n, p) >= 1,
{
    if p >= 2 && n > 0 && n % p == 0 {
        lemma_power_part_positive(n / p, p);
        assert((p - 1) * power_part(n / p, p) >= 1) by (nonlinear_arith)
            requires
                p >= 2,
                power_part(n / p, p) >= 1,
        ;
    }
}

proof fn lemma_totient_from_positive(n: nat, i: nat)
    requires
        i >= 2,
        n >= 1,
    ensures
        totient_from(n, i) >= 1,
    decreases n, n + 2 - i,
{
    if i * i <= n {
        lemma_strip_le(n, i);
        assert(i <= n) by (nonlinear_arith)
            requires
                i * i <= n,
                i >= 2,
        ;
        lemma_share_positive(n, i);
        lemma_totient_from_positive(strip(n, i), i + 2);
        assert(share(n, i) * totient_from(strip(n, i), i + 2) >= 1) by (nonlinear_arith)
            requires
                share(n, i) >= 1,
                totient_from(strip(n, i), i + 2) >= 1,
        ;
    }
}

/// The totient of a positive number is positive.
pub proof fn lemma_phi_positive(n: nat)
    requires
        n >= 1,
    ensures
        phi_spec(n) >= 1,
{
    lemma_share_positive(n, 2);
    lemma_strip_le(n, 2);
    lemma_totient_from_positive(strip(n, 2), 3);
    assert(share(n, 2) * totient_from(strip(n, 2), 3) >= 1) by (nonlinear_arith)
        requires
            share(n, 2) >= 1,
            totient_from(strip(n, 2), 3) >= 1,
    ;
}

impl<const N: u32> Add for ModInt<N> {
    type Output = Self;

    fn add(self, rhs: Self) -> (r: Self) {
        let sum: u64 = self.0 as u64 + rhs.0 as u64;
        proof {
            if sum >= N {
                lemma_mod_multiples_vanish(-1, sum as int, N as int);
                lemma_small_mod((sum - N) as nat, N as nat);
            } else {
                lemma_small_mod(sum as nat, N as nat);
            }
        }
        ModInt(
            if sum >= N as u64 {
                (sum - N as u64) as u32
            } else {
                sum as u32
            },
        )
    }
}

impl<const N: u32> AddSpecImpl for ModInt<N> {
    open spec fn obeys_add_spec() -> bool {
        true
    }

    open spec fn add_req(self, rhs: Self) -> bool {
        N > 0 && self.wf() && rhs.wf()
    }

    open spec fn add_spec(self, rhs: Self) -> Self {
        ModInt(((self.spec_val() + rhs.spec_val()) % (N as int)) as u32)
    }
}

impl<const N: u32> Sub for ModInt<N> {
    type Output = Self;

    fn sub(self, rhs: Self) -> (r: Self) {
        proof {
            if self.0 < rhs.0 {
                lemma_mod_multiples_vanish(1, self.0 - rhs.0, N as int);
                lemma_small_mod((self.0 + N - rhs.0) as nat, N as nat);
            } else {
                lemma_small_mod((self.0 - rhs.0) as nat, N as nat);
            }
        }
        ModInt(
            if self.0 < rhs.0 {
                N - (rhs.0 - self.0)
            } else {
                self.0 - rhs.0
            },
        )
    }
}

impl<const N: u32> SubSpecImpl for ModInt<N> {
    open spec fn obeys_sub_spec() -> bool {
        true
    }

    open spec fn sub_req(self, rhs: Self) -> bool {
        N > 0 && self.wf() && rhs.wf()
    }

    open spec fn sub_spec(self, rhs: Self) -> Self {
        ModInt(((self.spec_val() - rhs.spec_val()) % (N as int)) as u32)
    }
}

impl<const N: u32> Mul for ModInt<N> {
    type Output = Self;

    fn mul(self, rhs: Self) -> (r: Self) {
        proof {
            assert(self.0 * rhs.0 <= 0xffff_ffff * 0xffff_ffff) by (nonlinear_arith)
                requires
                    self.0 <= 0xffff_ffff,
                    rhs.0 <= 0xffff_ffff,
            ;
        }
        ModInt((self.0 as u64 * rhs.0 as u64 % N as u64) as u32)
    }
}

impl<const N: u32> MulSpecImpl for ModInt<N> {
    open spec fn obeys_mul_spec() -> bool {
        true
    }

    open spec fn mul_req(self, rhs: Self) -> bool {
        N > 0 && self.wf() && rhs.wf()
    }

    open spec fn mul_spec(self, rhs: Self) -> Self {
        ModInt(((self.spec_val() * rhs.spec_val()) % (N as int)) as u32)
    }
}

impl<const N: u32> Div for ModInt<N> {
    type Output = Self;

    /// `self` times `rhs` to the power `phi(N) - 1`: the quotient where
    /// `rhs` and `N` have no common factor.
    fn div(self, rhs: Self) -> (r: Self) {
        let phi = phi_const(N);
        proof {
            lemma_phi_positive(N as nat);
        }
        self.mul_pow(rhs, phi - 1)
    }
}

impl<const N: u32> DivSpecImpl for ModInt<N> {
    open spec fn obeys_div_spec() -> bool {
        true
    }

    open spec fn div_req(self, rhs: Self) -> bool {
        N > 0 && self.wf() && rhs.wf()
    }

    open spec fn div_spec(self, rhs: Self) -> Self {
        ModInt(
            Self::mul_pow_spec(self.spec_val(), rhs.spec_val(),
                (phi_spec(N as nat) - 1) as u32) as u32,
        )
    }
}

impl<const N: u32> Neg for ModInt<N> {
    type Output = Self;

    fn neg(self) -> (r: Self) {
        proof {
            if self.0 != 0 {
                lemma_mod_multiples_vanish(1, -(self.0 as int), N as int);
                lemma_small_mod((N - self.0) as nat, N as nat);
            } else {
                lemma_small_mod(0, N as nat);
            }
        }
        ModInt(
            if self.0 == 0 {
                0
            } else {
                N - self.0
            },
        )
    }
}

impl<const N: u32> NegSpecImpl for ModInt<N> {
    open spec fn obeys_neg_spec() -> bool {
        true
    }

    open spec fn neg_req(self) -> bool {
        N > 0 && self.wf()
    }

    open spec fn neg_spec(self) -> Self {
        ModInt(((-(self.spec_val() as int)) % (N as int)) as u32)
    }
}

} // verus!
