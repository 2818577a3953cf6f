//! Products of polynomials, and why the transform of a product is the
//! product of the transforms.
//!
//! A polynomial is the sequence of its coefficients, the constant first.

use crate::fft::{dft, eqm, lemma_eqm_add, lemma_eqm_mul, lemma_eqm_pow, term};
use crate::series::{
    column_of, column_sums, lemma_sum_one, lemma_sum_rest, lemma_sum_same, lemma_sum_scale,
    lemma_sum_shift, lemma_sum_swap, lemma_sum_tail, row_of, row_sums, sum,
};
use vstd::arithmetic::power::{
    lemma_pow0, lemma_pow1, lemma_pow_adds, lemma_pow_distributes, lemma_pow_multiplies, pow,
};
use vstd::arithmetic::power2::{lemma_pow2_pos, lemma_pow2_unfold, pow2};
use vstd::prelude::*;

verus! {

/// The coefficient of `a` at `i`: 0 where `a` has none.
pub open spec fn coeff(a: Seq<int>, i: int) -> int {
    if 0 <= i < a.len() {
        a[i]
    } else {
        0
    }
}

/// The products of a coefficient of `a` and the coefficient of `b` that
/// goes with it in the coefficient at `k` of the product.
pub open spec fn pairs(a: Seq<int>, b: Seq<int>, k: int) -> spec_fn(int) -> int {
    |i: int| coeff(a, i) * coeff(b, k - i)
}

/// The coefficient at `k` of the product of `a` and `b`: the sum of the
/// products `a[i] * b[j]` with `i + j == k`.
pub open spec fn conv(a: Seq<int>, b: Seq<int>, k: int) -> int {
    sum(pairs(a, b, k), a.len())
}

/// The powers of `x`.
pub open spec fn powers(x: int) -> spec_fn(int) -> int {
    |k: int| pow(x, k as nat)
}

/// The terms of the transform of `a` at `k`.
pub open spec fn terms(a: Seq<int>, w: int, k: int) -> spec_fn(int) -> int {
    |t: int| term(a, 0, 1, w, k, t)
}

/// A transform is the sum of its terms.
pub proof fn lemma_dft_sum(a: Seq<int>, len: nat, w: int, k: int)
    ensures
        dft(a, 0, 1, len, w, k) == sum(terms(a, w, k), len),
    decreases len,
{
    if len > 0 {
        lemma_dft_sum(a, (len - 1) as nat, w, k);
    }
}

/// The first `h + j` powers are the first `h`, and the first `j` times the
/// power to `h`.
proof fn lemma_geo_split(x: int, h: nat, j: nat)
    ensures
        sum(powers(x), h + j) == sum(powers(x), h) + pow(x, h) * sum(powers(x), j),
    decreases j,
{
    if j == 0 {
        assert(pow(x, h) * 0 == 0);
    } else {
        lemma_geo_split(x, h, (j - 1) as nat);
        lemma_pow_adds(x, h, (j - 1) as nat);
        assert(powers(x)(h + j - 1) == pow(x, h) * pow(x, (j - 1) as nat));
        assert(powers(x)(j - 1) == pow(x, (j - 1) as nat));
        let rest = sum(powers(x), (j - 1) as nat);
        let last = pow(x, (j - 1) as nat);
        assert(pow(x, h) * (rest + last) == pow(x, h) * rest + pow(x, h) * last)
            by (nonlinear_arith);
    }
}

/// The power of -1 to `d` is -1 where `d` is odd, and 1 where it is even.
proof fn lemma_sign_pow(d: nat)
    ensures
        pow(-1, d) == if d % 2 == 1 {
            -1int
        } else {
            1int
        },
    decreases d,
{
    if d == 0 {
        lemma_pow0(-1);
    } else {
        lemma_sign_pow((d - 1) as nat);
        lemma_pow_adds(-1, 1, (d - 1) as nat);
        lemma_pow1(-1);
    }
}

/// The first `2^levels` powers of `x` add up to a multiple of `md`, where
/// `x` is a power of a root of that many levels, to an exponent that is not
/// 0 and below `2^levels`.
proof fn lemma_geo_zero(x: int, u: int, d: nat, levels: nat, md: int)
    requires
        md > 1,
        levels >= 1,
        0 < d < pow2(levels),
        eqm(x, pow(u, d), md),
        eqm(pow(u, pow2((levels - 1) as nat)), -1, md),
    ensures
        eqm(sum(powers(x), pow2(levels)), 0, md),
    decreases levels,
{
    let h = pow2((levels - 1) as nat);
    lemma_pow2_unfold(levels);
    lemma_pow2_pos((levels - 1) as nat);
    lemma_geo_split(x, h, h);
    let first = sum(powers(x), h);
    assert(first + pow(x, h) * first == first * (1 + pow(x, h))) by (nonlinear_arith);
    if d % 2 == 1 {
        lemma_eqm_pow(x, pow(u, d), h, md);
        lemma_pow_multiplies(u, d, h);
        lemma_pow_multiplies(u, h, d);
        assert(d * h == h * d) by (nonlinear_arith);
        lemma_eqm_pow(pow(u, h), -1, d, md);
        lemma_sign_pow(d);
        assert(eqm(pow(x, h), -1, md));
        lemma_eqm_add(1, 1, pow(x, h), -1, md);
        lemma_eqm_mul(first, first, 1 + pow(x, h), 0, md);
        assert(first * 0 == 0);
    } else {
        let half = (d / 2) as nat;
        assert(d == 2 * half);
        if levels == 1 {
            vstd::arithmetic::power2::lemma2_to64();
            assert(false);
        }
        let below = pow2((levels - 2) as nat);
        lemma_pow2_unfold((levels - 1) as nat);
        crate::fft::lemma_pow_twice(u, half);
        crate::fft::lemma_pow_twice(u, below);
        assert(pow(u * u, below) == pow(u, h));
        lemma_geo_zero(x, u * u, half, (levels - 1) as nat, md);
        lemma_eqm_mul(first, 0, 1 + pow(x, h), 1 + pow(x, h), md);
        assert(0 * (1 + pow(x, h)) == 0);
    }
}

/// The first `n` powers of a number that leaves the rest 1 add up to `n`,
/// up to multiples of `md`.
pub proof fn lemma_geo_one(x: int, n: nat, md: int)
    requires
        md > 1,
        eqm(x, 1, md),
    ensures
        eqm(sum(powers(x), n), n as int, md),
    decreases n,
{
    if n > 0 {
        lemma_geo_one(x, (n - 1) as nat, md);
        lemma_eqm_pow(x, 1, (n - 1) as nat, md);
        crate::fft::lemma_unit_pow((n - 1) as nat);
        lemma_eqm_add(sum(powers(x), (n - 1) as nat), n - 1, pow(x, (n - 1) as nat), 1, md);
    }
}

/// The product of a power of `w` and a power of `wb` is a power of one of
/// the two, up to multiples of `md`, where the product of `w` and `wb`
/// leaves the rest 1.
proof fn lemma_cross(w: int, wb: int, t: nat, m: nat, md: int)
    requires
        md > 1,
        eqm(w * wb, 1, md),
    ensures
        t >= m ==> eqm(pow(w, t) * pow(wb, m), pow(w, (t - m) as nat), md),
        t <= m ==> eqm(pow(w, t) * pow(wb, m), pow(wb, (m - t) as nat), md),
{
    if t >= m {
        let d = (t - m) as nat;
        lemma_pow_adds(w, d, m);
        lemma_pow_distributes(w, wb, m);
        lemma_eqm_pow(w * wb, 1, m, md);
        crate::fft::lemma_unit_pow(m);
        assert(pow(w, t) * pow(wb, m) == pow(w, d) * (pow(w, m) * pow(wb, m))) by (nonlinear_arith)
            requires
                pow(w, t) == pow(w, d) * pow(w, m),
        ;
        lemma_eqm_mul(pow(w, d), pow(w, d), pow(w * wb, m), 1, md);
    }
    if t <= m {
        let d = (m - t) as nat;
        lemma_pow_adds(wb, d, t);
        lemma_pow_distributes(w, wb, t);
        lemma_eqm_pow(w * wb, 1, t, md);
        crate::fft::lemma_unit_pow(t);
        assert(pow(w, t) * pow(wb, m) == pow(wb, d) * (pow(w, t) * pow(wb, t))) by (nonlinear_arith)
            requires
                pow(wb, m) == pow(wb, d) * pow(wb, t),
        ;
        lemma_eqm_mul(pow(wb, d), pow(wb, d), pow(w * wb, t), 1, md);
    }
}

/// The terms of the transform back, at `m`, of the transform of `c`: the
/// coefficient at `t`, times the power of `w` to `t * k`, times the power
/// of `wb` to `k * m`.
pub open spec fn grid(c: Seq<int>, w: int, wb: int, m: int) -> spec_fn(int, int) -> int {
    |k: int, t: int| (c[t] * pow(w, (t * k) as nat)) * pow(wb, (k * m) as nat)
}

/// What the coefficient at `t` adds to the transform back at `m`: `n` times
/// itself where `t` is `m`, and nothing elsewhere, up to multiples of `md`.
proof fn lemma_column(c: Seq<int>, w: int, wb: int, levels: nat, md: int, m: int, t: int)
    requires
        md > 1,
        levels >= 1,
        0 <= m < pow2(levels),
        0 <= t < pow2(levels),
        eqm(w * wb, 1, md),
        eqm(pow(w, pow2((levels - 1) as nat)), -1, md),
        eqm(pow(wb, pow2((levels - 1) as nat)), -1, md),
    ensures
        eqm(
            column_sums(grid(c, w, wb, m), pow2(levels))(t),
            if t == m {
                pow2(levels) * c[m]
            } else {
                0
            },
            md,
        ),
{
    let n = pow2(levels);
    let f = grid(c, w, wb, m);
    let x = pow(w, t as nat) * pow(wb, m as nat);
    assert forall|k: int| 0 <= k < n
        implies #[trigger] column_of(f, t)(k) == c[t] * powers(x)(k) by {
        assert(t * k >= 0 && k * m >= 0) by (nonlinear_arith)
            requires
                t >= 0,
                k >= 0,
                m >= 0,
        ;
        lemma_pow_multiplies(w, t as nat, k as nat);
        lemma_pow_multiplies(wb, m as nat, k as nat);
        assert(m * k == k * m) by (nonlinear_arith);
        lemma_pow_distributes(pow(w, t as nat), pow(wb, m as nat), k as nat);
        assert((c[t] * pow(w, (t * k) as nat)) * pow(wb, (k * m) as nat) == c[t] * (pow(w,
            (t * k) as nat)
            * pow(wb, (k * m) as nat))) by (nonlinear_arith);
    }
    lemma_sum_scale(powers(x), column_of(f, t), c[t], n);
    let g = sum(powers(x), n);
    assert(column_sums(f, n)(t) == c[t] * g);
    lemma_cross(w, wb, t as nat, m as nat, md);
    if t == m {
        lemma_pow0(w);
        lemma_geo_one(x, n, md);
        lemma_eqm_mul(c[t], c[t], g, n as int, md);
        assert(c[t] * (n as int) == n * c[m]) by (nonlinear_arith)
            requires
                t == m,
        ;
    } else {
        if t > m {
            lemma_geo_zero(x, w, (t - m) as nat, levels, md);
        } else {
            lemma_geo_zero(x, wb, (m - t) as nat, levels, md);
        }
        lemma_eqm_mul(c[t], c[t], g, 0, md);
        assert(c[t] * 0 == 0);
    }
}

/// What is at `m` or 0: `x` at `m`, and 0 elsewhere.
pub open spec fn only_at(m: int, x: int) -> spec_fn(int) -> int {
    |t: int|
        if t == m {
            x
        } else {
            0
        }
}

/// The transform back of a transform gives the coefficients, each `n`
/// times: where `big` holds the transform of `c` by `w`, the transform of
/// `big` by `wb` is at `m` the coefficient of `c` at `m` times the length,
/// up to multiples of `md`.
pub proof fn lemma_inversion(
    c: Seq<int>,
    big: Seq<int>,
    w: int,
    wb: int,
    levels: nat,
    md: int,
    m: int,
)
    requires
        md > 1,
        levels >= 1,
        0 <= m < pow2(levels),
        eqm(w * wb, 1, md),
        eqm(pow(w, pow2((levels - 1) as nat)), -1, md),
        eqm(pow(wb, pow2((levels - 1) as nat)), -1, md),
        forall|k: int| 0 <= k < pow2(levels)
            ==> eqm(#[trigger] big[k], dft(c, 0, 1, pow2(levels), w, k), md),
    ensures
        eqm(dft(big, 0, 1, pow2(levels), wb, m), pow2(levels) * c[m], md),
{
    let n = pow2(levels);
    let f = grid(c, w, wb, m);
    lemma_dft_sum(big, n, wb, m);
    assert forall|k: int| 0 <= k < n implies eqm(
        #[trigger] terms(big, wb, m)(k),
        row_sums(f, n)(k),
        md,
    ) by {
        let p = pow(wb, (k * m) as nat);
        lemma_dft_sum(c, n, w, k);
        assert forall|t: int| 0 <= t < n
            implies #[trigger] row_of(f, k)(t) == p * terms(c, w, k)(t) by {
            assert(0 + t * 1 == t);
            assert((c[t] * pow(w, (t * k) as nat)) * p == p * (c[t] * pow(w, (t * k) as nat)))
                by (nonlinear_arith);
        }
        lemma_sum_scale(terms(c, w, k), row_of(f, k), p, n);
        assert(0 + k * 1 == k);
        lemma_eqm_mul(big[k], dft(c, 0, 1, n, w, k), p, p, md);
        assert(dft(c, 0, 1, n, w, k) * p == p * dft(c, 0, 1, n, w, k)) by (nonlinear_arith);
    }
    lemma_sum_rest(terms(big, wb, m), row_sums(f, n), n, md);
    lemma_sum_swap(f, n, n);
    assert forall|t: int| 0 <= t < n implies eqm(
        #[trigger] column_sums(f, n)(t),
        only_at(m, n * c[m])(t),
        md,
    ) by {
        lemma_column(c, w, wb, levels, md, m, t);
    }
    lemma_sum_rest(column_sums(f, n), only_at(m, n * c[m]), n, md);
    lemma_sum_one(only_at(m, n * c[m]), n, m);
}

/// The terms of the product of two transforms at `k`, where `z` is the
/// power of the root to `k`: the coefficient of `a` at `i`, times the
/// coefficient of `b` that goes with it in the coefficient at `m` of the
/// product, times the power of `z` to `m`.
pub open spec fn cross(a: Seq<int>, b: Seq<int>, z: int) -> spec_fn(int, int) -> int {
    |i: int, m: int| (a[i] * coeff(b, m - i)) * pow(z, m as nat)
}

/// The terms of a polynomial at `z`, each times `c`.
pub open spec fn scaled(b: Seq<int>, z: int, c: int) -> spec_fn(int) -> int {
    |j: int| c * (b[j] * pow(z, j as nat))
}

/// The coefficients of the product of `a` and `b` up to `n`.
pub open spec fn product(a: Seq<int>, b: Seq<int>, n: nat) -> Seq<int> {
    Seq::new(n, |m: int| conv(a, b, m))
}

/// The terms of a transform at `k` are those of the polynomial at the power
/// of the root to `k`.
proof fn lemma_term_at(a: Seq<int>, w: int, k: int, t: int)
    requires
        k >= 0,
        t >= 0,
    ensures
        terms(a, w, k)(t) == a[t] * pow(pow(w, k as nat), t as nat),
{
    assert(0 + t * 1 == t);
    assert(t * k >= 0) by (nonlinear_arith)
        requires
            k >= 0,
            t >= 0,
    ;
    lemma_pow_multiplies(w, k as nat, t as nat);
    assert(k * t == t * k) by (nonlinear_arith);
}

/// What the coefficient of `a` at `i` adds to the product of the two
/// transforms: itself, times the power of `z` to `i`, times the transform
/// of `b`.
proof fn lemma_row(a: Seq<int>, b: Seq<int>, n: nat, w: int, k: int, i: int)
    requires
        a.len() == n,
        b.len() == n,
        k >= 0,
        0 <= i < n,
        forall|j: int| 0 <= j < n && i + j >= n ==> a[i] * #[trigger] b[j] == 0,
    ensures
        row_sums(cross(a, b, pow(w, k as nat)), n)(i) == dft(b, 0, 1, n, w, k) * terms(a, w, k)(i),
{
    let z = pow(w, k as nat);
    let h = cross(a, b, z);
    let c = a[i] * pow(z, i as nat);
    let r = scaled(b, z, c);
    assert forall|m: int| 0 <= m < i implies #[trigger] row_of(h, i)(m) == 0 by {
        assert(coeff(b, m - i) == 0);
        assert(a[i] * 0 == 0);
        assert(0 * pow(z, m as nat) == 0);
    }
    assert forall|m: int| i <= m < n implies #[trigger] row_of(h, i)(m) == r(m - i) by {
        let j = m - i;
        lemma_pow_adds(z, i as nat, j as nat);
        assert((a[i] * b[j]) * (pow(z, i as nat) * pow(z, j as nat)) == (a[i] * pow(z,
            i as nat)) * (b[j]
            * pow(z, j as nat))) by (nonlinear_arith);
    }
    lemma_sum_shift(r, row_of(h, i), i as nat, n);
    assert forall|j: int| n - i <= j < n implies #[trigger] r(j) == 0 by {
        assert(a[i] * b[j] == 0);
        assert(c * (b[j] * pow(z, j as nat)) == (a[i] * b[j]) * (pow(z, i as nat) * pow(z,
            j as nat)))
            by (nonlinear_arith)
            requires
                c == a[i] * pow(z, i as nat),
        ;
        assert(0 * (pow(z, i as nat) * pow(z, j as nat)) == 0);
    }
    lemma_sum_tail(r, (n - i) as nat, n);
    assert forall|j: int| 0 <= j < n implies #[trigger] r(j) == c * terms(b, w, k)(j) by {
        lemma_term_at(b, w, k, j);
    }
    lemma_sum_scale(terms(b, w, k), r, c, n);
    lemma_dft_sum(b, n, w, k);
    lemma_term_at(a, w, k, i);
    assert(c * dft(b, 0, 1, n, w, k) == dft(b, 0, 1, n, w, k) * c) by (nonlinear_arith);
}

/// The product of the transforms of two polynomials is the transform of
/// their product, where the product has no coefficient beyond the length.
pub proof fn lemma_product(a: Seq<int>, b: Seq<int>, n: nat, w: int, k: int)
    requires
        a.len() == n,
        b.len() == n,
        k >= 0,
        forall|i: int, j: int| 0 <= i < n && 0 <= j < n && i + j >= n
            ==> #[trigger] a[i] * #[trigger] b[j] == 0,
    ensures
        dft(a, 0, 1, n, w, k) * dft(b, 0, 1, n, w, k) == dft(product(a, b, n), 0, 1, n, w, k),
{
    let z = pow(w, k as nat);
    let h = cross(a, b, z);
    let big_b = dft(b, 0, 1, n, w, k);
    let c = product(a, b, n);
    assert forall|i: int| 0 <= i < n
        implies #[trigger] row_sums(h, n)(i) == big_b * terms(a, w, k)(i) by {
        assert forall|j: int| 0 <= j < n && i + j >= n implies a[i] * #[trigger] b[j] == 0 by {}
        lemma_row(a, b, n, w, k, i);
    }
    lemma_sum_scale(terms(a, w, k), row_sums(h, n), big_b, n);
    lemma_dft_sum(a, n, w, k);
    lemma_sum_swap(h, n, n);
    assert forall|m: int| 0 <= m < n
        implies #[trigger] column_sums(h, n)(m) == terms(c, w, k)(m) by {
        let p = pow(z, m as nat);
        assert forall|i: int| 0 <= i < n
            implies #[trigger] column_of(h, m)(i) == p * pairs(a, b, m)(i) by {
            assert((a[i] * coeff(b, m - i)) * p == p * (a[i] * coeff(b,
                m - i))) by (nonlinear_arith);
        }
        lemma_sum_scale(pairs(a, b, m), column_of(h, m), p, n);
        lemma_term_at(c, w, k, m);
        assert(c[m] == conv(a, b, m));
        assert(p * conv(a, b, m) == conv(a, b, m) * p) by (nonlinear_arith);
    }
    lemma_sum_same(column_sums(h, n), terms(c, w, k), n);
    lemma_dft_sum(c, n, w, k);
    assert(big_b * dft(a, 0, 1, n, w, k) == dft(a, 0, 1, n, w, k) * big_b) by (nonlinear_arith);
}

/// Zeros behind the coefficients of two polynomials leave the coefficients
/// of their product as they are.
pub proof fn lemma_conv_padded(a: Seq<int>, b: Seq<int>, wide_a: Seq<int>, wide_b: Seq<int>, k: int)
    requires
        a.len() <= wide_a.len(),
        b.len() <= wide_b.len(),
        forall|i: int| 0 <= i < wide_a.len() ==> #[trigger] wide_a[i] == coeff(a, i),
        forall|i: int| 0 <= i < wide_b.len() ==> #[trigger] wide_b[i] == coeff(b, i),
    ensures
        conv(wide_a, wide_b, k) == conv(a, b, k),
{
    assert forall|i: int| 0 <= i < wide_a.len()
        implies #[trigger] pairs(wide_a, wide_b, k)(i) == pairs(a, b, k)(i) by {
        assert(coeff(wide_a, i) == coeff(a, i));
        if 0 <= k - i < wide_b.len() {
            assert(wide_b[k - i] == coeff(b, k - i));
        }
    }
    lemma_sum_same(pairs(wide_a, wide_b, k), pairs(a, b, k), wide_a.len());
    assert forall|i: int| a.len() <= i < wide_a.len() implies #[trigger] pairs(a, b, k)(i) == 0 by {
        assert(0 * coeff(b, k - i) == 0);
    }
    lemma_sum_tail(pairs(a, b, k), a.len(), wide_a.len());
}

/// The product of two polynomials from their transforms: where `fa` and
/// `fb` hold the transforms of `a` and `b` by `w`, and `fc` the products of
/// their elements, the transform of `fc` by `wb`, times the inverse of the
/// length, is at `m` the coefficient at `m` of the product of `a` and `b`,
/// up to multiples of `md`.
pub proof fn lemma_convolution(
    a: Seq<int>,
    b: Seq<int>,
    fa: Seq<int>,
    fb: Seq<int>,
    fc: Seq<int>,
    w: int,
    wb: int,
    inv: int,
    levels: nat,
    md: int,
    m: int,
)
    requires
        md > 1,
        levels >= 1,
        a.len() == pow2(levels),
        b.len() == pow2(levels),
        0 <= m < pow2(levels),
        forall|i: int, j: int|
            0 <= i < a.len() && 0 <= j < b.len() && i + j >= pow2(levels)
                ==> #[trigger] a[i] * #[trigger] b[j] == 0,
        eqm(w * wb, 1, md),
        eqm(pow(w, pow2((levels - 1) as nat)), -1, md),
        eqm(pow(wb, pow2((levels - 1) as nat)), -1, md),
        eqm(pow2(levels) * inv, 1, md),
        forall|k: int| 0 <= k < pow2(levels)
            ==> eqm(#[trigger] fa[k], dft(a, 0, 1, pow2(levels), w, k), md),
        forall|k: int| 0 <= k < pow2(levels)
            ==> eqm(#[trigger] fb[k], dft(b, 0, 1, pow2(levels), w, k), md),
        forall|k: int| 0 <= k < pow2(levels) ==> eqm(#[trigger] fc[k], fa[k] * fb[k], md),
    ensures
        eqm(dft(fc, 0, 1, pow2(levels), wb, m) * inv, conv(a, b, m), md),
{
    let n = pow2(levels);
    let c = product(a, b, n);
    assert forall|k: int| 0 <= k < n implies eqm(#[trigger] fc[k], dft(c, 0, 1, n, w, k), md) by {
        lemma_product(a, b, n, w, k);
        lemma_eqm_mul(fa[k], dft(a, 0, 1, n, w, k), fb[k], dft(b, 0, 1, n, w, k), md);
    }
    lemma_inversion(c, fc, w, wb, levels, md, m);
    let back = dft(fc, 0, 1, n, wb, m);
    lemma_eqm_mul(back, n * c[m], inv, inv, md);
    assert((n * c[m]) * inv == c[m] * (n * inv)) by (nonlinear_arith);
    lemma_eqm_mul(c[m], c[m], n * inv, 1, md);
    assert(c[m] * 1 == conv(a, b, m));
}

} // verus!
