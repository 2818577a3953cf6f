//! The discrete Fourier transform of sequences of integers modulo `N`, and
//! with it the product of two polynomials.

use crate::modint::{lemma_phi_positive, phi_const, phi_spec, ModInt};
use crate::polynomial::{coeff, conv, lemma_conv_padded, lemma_convolution, lemma_inversion, pairs};
use crate::series::sum;
use vstd::arithmetic::div_mod::{
    lemma_add_mod_noop, lemma_mul_mod_noop_general, lemma_small_mod, lemma_sub_mod_noop,
};
use vstd::arithmetic::power::{
    lemma_pow0, lemma_pow1, lemma_pow_adds, lemma_pow_mod_noop, lemma_pow_multiplies, pow,
};
use vstd::arithmetic::power2::{lemma_pow2_pos, lemma_pow2_unfold, pow2};
use vstd::prelude::*;

verus! {

/// Whether `a` and `b` leave the same rest when divided by `m`.
pub open spec fn eqm(a: int, b: int, m: int) -> bool {
    a % m == b % m
}

/// Sums of numbers that leave the same rests leave the same rest.
pub proof fn lemma_eqm_add(a: int, b: int, c: int, d: int, m: int)
    requires
        m > 0,
        eqm(a, b, m),
        eqm(c, d, m),
    ensures
        eqm(a + c, b + d, m),
{
    lemma_add_mod_noop(a, c, m);
    lemma_add_mod_noop(b, d, m);
}

/// Differences of numbers that leave the same rests leave the same rest.
pub proof fn lemma_eqm_sub(a: int, b: int, c: int, d: int, m: int)
    requires
        m > 0,
        eqm(a, b, m),
        eqm(c, d, m),
    ensures
        eqm(a - c, b - d, m),
{
    lemma_sub_mod_noop(a, c, m);
    lemma_sub_mod_noop(b, d, m);
}

/// Products of numbers that leave the same rests leave the same rest.
pub proof fn lemma_eqm_mul(a: int, b: int, c: int, d: int, m: int)
    requires
        m > 0,
        eqm(a, b, m),
        eqm(c, d, m),
    ensures
        eqm(a * c, b * d, m),
{
    lemma_mul_mod_noop_general(a, c, m);
    lemma_mul_mod_noop_general(b, d, m);
}

/// Powers of numbers that leave the same rest leave the same rest.
pub proof fn lemma_eqm_pow(a: int, b: int, e: nat, m: int)
    requires
        m > 0,
        eqm(a, b, m),
    ensures
        eqm(pow(a, e), pow(b, e), m),
{
    lemma_pow_mod_noop(a, e, m);
    lemma_pow_mod_noop(b, e, m);
}

/// The power to twice an exponent is the power of the square.
pub proof fn lemma_pow_twice(w: int, e: nat)
    ensures
        pow(w, 2 * e) == pow(w * w, e),
{
    lemma_pow1(w);
    lemma_pow_adds(w, 1, 1);
    lemma_pow_multiplies(w, 2, e);
}

/// One term of a transform: the element at the place `t` of the part of `a`
/// that begins at `off` and goes on in steps of `stride`, times the power of
/// `w` to `t * k`.
pub open spec fn term(a: Seq<int>, off: int, stride: int, w: int, k: int, t: int) -> int {
    a[off + t * stride] * pow(w, (t * k) as nat)
}

/// The transform at `k` of the `len` elements of `a` that begin at `off` and
/// go on in steps of `stride`: the sum of `a[off + t * stride] * w^(t * k)`
/// over `t`.
pub open spec fn dft(a: Seq<int>, off: int, stride: int, len: nat, w: int, k: int) -> int
    decreases len,
{
    if len == 0 {
        0
    } else {
        dft(a, off, stride, (len - 1) as nat, w, k) + term(a, off, stride, w, k, len - 1)
    }
}

/// A transform of twice the length is made of two: that of the elements at
/// the even places, and that of the elements at the odd places times a
/// power of the root, where the square of the root is the root of the two.
proof fn lemma_halves(a: Seq<int>, off: int, stride: int, half: nat, w2: int, w: int, k: int,
    m: int)
    requires
        m > 0,
        k >= 0,
        eqm(w2 * w2, w, m),
    ensures
        eqm(
            dft(a, off, stride, 2 * half, w2, k),
            dft(a, off, 2 * stride, half, w, k) + pow(w2, k as nat) * dft(
                a,
                off + stride,
                2 * stride,
                half,
                w,
                k,
            ),
            m,
        ),
    decreases half,
{
    if half > 0 {
        let t = (half - 1) as int;
        lemma_halves(a, off, stride, (half - 1) as nat, w2, w, k, m);
        let low = dft(a, off, stride, (2 * half - 2) as nat, w2, k);
        let even = dft(a, off, 2 * stride, (half - 1) as nat, w, k);
        let odd = dft(a, off + stride, 2 * stride, (half - 1) as nat, w, k);
        let c = pow(w2, k as nat);
        assert(dft(a, off, stride, 2 * half, w2, k) == low + term(a, off, stride, w2, k,
            2 * t) + term(
            a,
            off,
            stride,
            w2,
            k,
            2 * t + 1,
        )) by {
            assert(dft(a, off, stride, 2 * half, w2, k) == dft(
                a,
                off,
                stride,
                (2 * half - 1) as nat,
                w2,
                k,
            ) + term(a, off, stride, w2, k, 2 * half - 1));
            assert(dft(a, off, stride, (2 * half - 1) as nat, w2, k) == dft(
                a,
                off,
                stride,
                (2 * half - 2) as nat,
                w2,
                k,
            ) + term(a, off, stride, w2, k, 2 * half - 2));
        }
        // the term at the even place
        let e = (t * k) as nat;
        assert(t * k >= 0) by (nonlinear_arith)
            requires
                t >= 0,
                k >= 0,
        ;
        assert((2 * t) * k == 2 * (t * k)) by (nonlinear_arith);
        assert((2 * t + 1) * k == 2 * (t * k) + k) by (nonlinear_arith);
        assert(off + (2 * t) * stride == off + t * (2 * stride)) by (nonlinear_arith);
        assert(off + (2 * t + 1) * stride == off + stride + t * (2 * stride)) by (nonlinear_arith);
        lemma_pow_twice(w2, e);
        lemma_eqm_pow(w2 * w2, w, e, m);
        let x0 = a[off + t * (2 * stride)];
        let x1 = a[off + stride + t * (2 * stride)];
        assert(term(a, off, stride, w2, k, 2 * t) == x0 * pow(w2, 2 * e));
        assert(term(a, off, 2 * stride, w, k, t) == x0 * pow(w, e));
        lemma_eqm_mul(x0, x0, pow(w2, 2 * e), pow(w, e), m);
        // the term at the odd place
        lemma_pow_adds(w2, 2 * e, k as nat);
        assert(term(a, off, stride, w2, k, 2 * t + 1) == x1 * (pow(w2, 2 * e) * c));
        assert(term(a, off + stride, 2 * stride, w, k, t) == x1 * pow(w, e));
        lemma_eqm_mul(x1 * c, x1 * c, pow(w2, 2 * e), pow(w, e), m);
        assert(x1 * (pow(w2, 2 * e) * c) == (x1 * c) * pow(w2, 2 * e)) by (nonlinear_arith);
        assert((x1 * c) * pow(w, e) == c * (x1 * pow(w, e))) by (nonlinear_arith);
        // together
        let t0 = term(a, off, 2 * stride, w, k, t);
        let t1 = term(a, off + stride, 2 * stride, w, k, t);
        lemma_eqm_add(low, even + c * odd, term(a, off, stride, w2, k, 2 * t), t0, m);
        lemma_eqm_add(
            low + term(a, off, stride, w2, k, 2 * t),
            even + c * odd + t0,
            term(a, off, stride, w2, k, 2 * t + 1),
            c * t1,
            m,
        );
        assert(even + c * odd + t0 + c * t1 == (even + t0) + c * (odd + t1)) by (nonlinear_arith);
    } else {
        assert(pow(w2, k as nat) * 0 == 0);
    }
}

/// A transform is the same, up to multiples of `m`, at `k` and at `k + p`,
/// where the power of the root to `p` leaves the rest 1.
proof fn lemma_period(a: Seq<int>, off: int, stride: int, len: nat, w: int, k: int, p: int, m: int)
    requires
        m > 1,
        k >= 0,
        p >= 0,
        eqm(pow(w, p as nat), 1, m),
    ensures
        eqm(dft(a, off, stride, len, w, k + p), dft(a, off, stride, len, w, k), m),
    decreases len,
{
    if len > 0 {
        let t = (len - 1) as int;
        lemma_period(a, off, stride, (len - 1) as nat, w, k, p, m);
        assert(t * k >= 0 && t * p >= 0) by (nonlinear_arith)
            requires
                t >= 0,
                k >= 0,
                p >= 0,
        ;
        assert(t * (k + p) == t * k + t * p) by (nonlinear_arith);
        assert(t * p == p * t) by (nonlinear_arith);
        lemma_pow_adds(w, (t * k) as nat, (t * p) as nat);
        lemma_pow_multiplies(w, p as nat, t as nat);
        lemma_eqm_pow(pow(w, p as nat), 1, t as nat, m);
        lemma_unit_pow(t as nat);
        let x = a[off + t * stride];
        let u = pow(w, (t * k) as nat);
        let v = pow(w, (t * p) as nat);
        assert(eqm(v, 1, m));
        lemma_eqm_mul(x * u, x * u, v, 1, m);
        assert(x * (u * v) == (x * u) * v) by (nonlinear_arith);
        assert(term(a, off, stride, w, k + p, t) == x * (u * v));
        assert(term(a, off, stride, w, k, t) == (x * u) * 1);
        lemma_eqm_add(
            dft(a, off, stride, (len - 1) as nat, w, k + p),
            dft(a, off, stride, (len - 1) as nat, w, k),
            term(a, off, stride, w, k + p, t),
            term(a, off, stride, w, k, t),
            m,
        );
    }
}

/// Every power of 1 is 1.
pub proof fn lemma_unit_pow(e: nat)
    ensures
        pow(1, e) == 1,
    decreases e,
{
    if e == 0 {
        lemma_pow0(1);
    } else {
        lemma_unit_pow((e - 1) as nat);
        lemma_pow_adds(1, 1, (e - 1) as nat);
        lemma_pow1(1);
    }
}

/// The number whose `m` binary digits are those of `b` in the opposite
/// order.
pub open spec fn rev(m: nat, b: nat) -> nat
    decreases m,
{
    if m == 0 {
        0
    } else {
        rev((m - 1) as nat, b / 2) + (b % 2) * pow2((m - 1) as nat)
    }
}

/// A number of `m` digits turned round has `m` digits.
proof fn lemma_rev_bound(m: nat, b: nat)
    ensures
        rev(m, b) < pow2(m),
    decreases m,
{
    lemma_pow2_pos(m);
    if m > 0 {
        lemma_rev_bound((m - 1) as nat, b / 2);
        lemma_pow2_unfold(m);
        assert((b % 2) * pow2((m - 1) as nat) <= pow2((m - 1) as nat)) by (nonlinear_arith)
            requires
                b % 2 <= 1,
        ;
    }
}

/// The residues that `a` holds.
pub open spec fn values<const N: u32>(a: Seq<ModInt<N>>) -> Seq<int> {
    Seq::new(a.len(), |i: int| a[i].0 as int)
}

/// What the block `b` of a level is to hold at its place `k`: the transform
/// of the `len` elements of `src` that begin at the place `b` turned round
/// and go on in steps of `stride`.
pub open spec fn want(src: Seq<int>, m: nat, b: int, stride: int, len: int, w: int, k: int) -> int {
    dft(src, rev(m, b as nat) as int, stride, len as nat, w, k)
}

/// The element at the place `k` of the block `b`, in blocks of `len`.
pub open spec fn cell(vals: Seq<int>, b: int, len: int, k: int) -> int {
    vals[b * len + k]
}

/// The element `k` places behind `j`.
pub open spec fn at(vals: Seq<int>, j: int, k: int) -> int {
    vals[j + k]
}

/// The blocks from `lo` up to `hi`, of `len` elements each, hold the
/// transforms that they are to hold, up to multiples of `md`.
pub open spec fn level_ok(
    src: Seq<int>,
    vals: Seq<int>,
    md: int,
    m: nat,
    len: int,
    stride: int,
    w: int,
    lo: int,
    hi: int,
) -> bool {
    forall|b: int, k: int|
        lo <= b < hi && 0 <= k < len ==> eqm(
            #[trigger] cell(vals, b, len, k),
            want(src, m, b, stride, len, w, k),
            md,
        )
}

/// Of the two blocks from `j` on, of `len` elements each, the first `l`
/// places of each hold what the block of twice the length is to hold, and
/// the others what the two blocks were to hold.
pub open spec fn pair_ok(
    src: Seq<int>,
    vals: Seq<int>,
    md: int,
    m: nat,
    len: int,
    stride: int,
    w2: int,
    w: int,
    c: int,
    j: int,
    l: int,
) -> bool {
    &&& forall|k: int|
        0 <= k < l ==> eqm(
            #[trigger] at(vals, j, k),
            want(src, (m - 1) as nat, c, stride / 2, 2 * len, w2, k),
            md,
        ) && eqm(at(vals, j + len, k), want(src, (m - 1) as nat, c, stride / 2, 2 * len, w2,
            len + k), md)
    &&& forall|k: int|
        l <= k < len ==> eqm(#[trigger] at(vals, j, k), want(src, m, 2 * c, stride, len, w, k), md)
            && eqm(
            at(vals, j + len, k),
            want(src, m, 2 * c + 1, stride, len, w, k),
            md,
        )
}

/// The block of twice the length, from two blocks: at a place of its first
/// half the sum, and at the same place of its second half the difference,
/// of what the first block holds there and what the second holds, times a
/// power of the root.
proof fn lemma_butterfly(
    src: Seq<int>,
    md: int,
    m: nat,
    len: int,
    stride: int,
    w2: int,
    w: int,
    c: int,
    k: int,
)
    requires
        md > 1,
        m >= 1,
        stride == pow2(m),
        0 <= c,
        0 <= k < len,
        eqm(w2 * w2, w, md),
        eqm(pow(w, len as nat), 1, md),
        eqm(pow(w2, len as nat), -1, md),
    ensures
        eqm(
            want(src, (m - 1) as nat, c, stride / 2, 2 * len, w2, k),
            want(src, m, 2 * c, stride, len, w, k) + pow(w2, k as nat) * want(
                src,
                m,
                2 * c + 1,
                stride,
                len,
                w,
                k,
            ),
            md,
        ),
        eqm(
            want(src, (m - 1) as nat, c, stride / 2, 2 * len, w2, len + k),
            want(src, m, 2 * c, stride, len, w, k) - pow(w2, k as nat) * want(
                src,
                m,
                2 * c + 1,
                stride,
                len,
                w,
                k,
            ),
            md,
        ),
{
    let step = pow2((m - 1) as nat) as int;
    lemma_pow2_unfold(m);
    assert(stride == 2 * step);
    assert(stride / 2 == step);
    let off = rev((m - 1) as nat, c as nat) as int;
    assert(rev(m, (2 * c) as nat) == off) by {
        assert((2 * c) as nat / 2 == c as nat);
        assert((2 * c) as nat % 2 == 0);
        assert(0 * pow2((m - 1) as nat) == 0);
    }
    assert(rev(m, (2 * c + 1) as nat) == off + step) by {
        assert((2 * c + 1) as nat / 2 == c as nat);
        assert((2 * c + 1) as nat % 2 == 1);
        assert(1 * pow2((m - 1) as nat) == pow2((m - 1) as nat));
    }
    let e = want(src, m, 2 * c, stride, len, w, k);
    let o = want(src, m, 2 * c + 1, stride, len, w, k);
    let p = pow(w2, k as nat);
    lemma_halves(src, off, step, len as nat, w2, w, k, md);
    assert((2 * (len as nat)) as int == 2 * len);
    // the second half
    lemma_halves(src, off, step, len as nat, w2, w, len + k, md);
    lemma_period(src, off, stride, len as nat, w, k, len, md);
    lemma_period(src, off + step, stride, len as nat, w, k, len, md);
    let even_up = dft(src, off, stride, len as nat, w, len + k);
    let odd_up = dft(src, off + step, stride, len as nat, w, len + k);
    let upper = pow(w2, (len + k) as nat);
    lemma_pow_adds(w2, len as nat, k as nat);
    assert(upper == pow(w2, len as nat) * p);
    lemma_eqm_mul(pow(w2, len as nat), -1, p, p, md);
    assert(eqm(upper, -p, md)) by {
        assert((-1) * p == -p);
    }
    lemma_eqm_mul(upper, -p, odd_up, o, md);
    lemma_eqm_add(even_up, e, upper * odd_up, (-p) * o, md);
    assert(e + (-p) * o == e - p * o) by (nonlinear_arith);
}

/// The power of each root to the length of its level leaves the rest 1.
pub open spec fn roots_ok<const N: u32>(roots: Seq<ModInt<N>>, levels: nat) -> bool {
    &&& roots.len() > levels
    &&& forall|j: int| 0 <= j <= levels ==> (#[trigger] roots[j]).wf()
    &&& forall|j: int|
        1 <= j <= levels ==> eqm((#[trigger] roots[j]).0 * roots[j].0, roots[j - 1].0 as int,
            N as int) && eqm(
            pow(roots[j].0 as int, pow2((j - 1) as nat)),
            -1,
            N as int,
        )
}

/// The power of the root of a level to the length of the level leaves the
/// rest 1.
proof fn lemma_root_order<const N: u32>(roots: Seq<ModInt<N>>, levels: nat, j: int)
    requires
        N > 1,
        levels >= 1,
        roots_ok(roots, levels),
        0 <= j <= levels,
    ensures
        eqm(pow(roots[j].0 as int, pow2(j as nat)), 1, N as int),
{
    let md = N as int;
    if j >= 1 {
        let r = roots[j].0 as int;
        let h = pow2((j - 1) as nat);
        lemma_pow2_unfold(j as nat);
        lemma_pow_multiplies(r, h, 2);
        assert(h * 2 == 2 * h);
        assert(pow(r, pow2(j as nat)) == pow(pow(r, h), 2));
        lemma_eqm_pow(pow(r, h), -1, 2, md);
        lemma_pow1(-1);
        lemma_pow_adds(-1, 1, 1);
        assert(pow(-1, 2) == 1);
    } else {
        let r1 = roots[1].0 as int;
        let r0 = roots[0].0 as int;
        assert(eqm(r1 * r1, r0, md));
        vstd::arithmetic::power2::lemma2_to64();
        lemma_pow1(r1);
        lemma_pow1(r0);
        assert(eqm(pow(r1, pow2(0)), -1, md));
        lemma_eqm_mul(r1, -1, r1, -1, md);
        assert((-1) * (-1) == 1) by (nonlinear_arith);
    }
}

/// What two residues and a power of the root make: their sum, and their
/// difference, with the second times the power.
proof fn lemma_step(x: int, y: int, s: int, big_x: int, big_y: int, big_s: int, md: int)
    requires
        md > 0,
        eqm(x, big_x, md),
        eqm(y, big_y, md),
        eqm(s, big_s, md),
    ensures
        eqm((x + (y * s) % md) % md, big_x + big_s * big_y, md),
        eqm((x - (y * s) % md) % md, big_x - big_s * big_y, md),
{
    lemma_eqm_mul(y, big_y, s, big_s, md);
    assert(big_y * big_s == big_s * big_y) by (nonlinear_arith);
    vstd::arithmetic::div_mod::lemma_mod_twice(y * s, md);
    lemma_eqm_add(x, big_x, (y * s) % md, big_s * big_y, md);
    lemma_eqm_sub(x, big_x, (y * s) % md, big_s * big_y, md);
    vstd::arithmetic::div_mod::lemma_mod_twice(x + (y * s) % md, md);
    vstd::arithmetic::div_mod::lemma_mod_twice(x - (y * s) % md, md);
}

/// Blocks that are left as they were hold what they held.
proof fn lemma_level_kept(
    src: Seq<int>,
    vals: Seq<int>,
    next: Seq<int>,
    md: int,
    m: nat,
    len: int,
    stride: int,
    w: int,
    lo: int,
    hi: int,
)
    requires
        level_ok(src, vals, md, m, len, stride, w, lo, hi),
        len > 0,
        0 <= lo,
        forall|p: int| lo * len <= p < hi * len ==> #[trigger] next[p] == vals[p],
    ensures
        level_ok(src, next, md, m, len, stride, w, lo, hi),
{
    assert forall|b: int, k: int| lo <= b < hi && 0 <= k < len implies eqm(
        #[trigger] cell(next, b, len, k),
        want(src, m, b, stride, len, w, k),
        md,
    ) by {
        assert(lo * len <= b * len + k < hi * len) by (nonlinear_arith)
            requires
                lo <= b < hi,
                0 <= k < len,
        ;
        assert(next[b * len + k] == vals[b * len + k]);
        assert(eqm(cell(vals, b, len, k), want(src, m, b, stride, len, w, k), md));
    }
}

/// Two blocks that are next in turn hold what they were to hold.
proof fn lemma_pair_begin(
    src: Seq<int>,
    vals: Seq<int>,
    md: int,
    m: nat,
    len: int,
    stride: int,
    w2: int,
    w: int,
    c: int,
    hi: int,
)
    requires
        level_ok(src, vals, md, m, len, stride, w, 2 * c, hi),
        2 * c + 2 <= hi,
        len > 0,
    ensures
        pair_ok(src, vals, md, m, len, stride, w2, w, c, c * (2 * len), 0),
{
    let j = c * (2 * len);
    assert forall|k: int| 0 <= k < len implies eqm(
        #[trigger] at(vals, j, k),
        want(src, m, 2 * c, stride, len, w, k),
        md,
    ) && eqm(at(vals, j + len, k), want(src, m, 2 * c + 1, stride, len, w, k), md) by {
        assert((2 * c) * len + k == j + k) by (nonlinear_arith)
            requires
                j == c * (2 * len),
        ;
        assert((2 * c + 1) * len + k == j + len + k) by (nonlinear_arith)
            requires
                j == c * (2 * len),
        ;
        assert(eqm(cell(vals, 2 * c, len, k), want(src, m, 2 * c, stride, len, w, k), md));
        assert(eqm(cell(vals, 2 * c + 1, len, k), want(src, m, 2 * c + 1, stride, len, w, k), md));
    }
}

/// Two blocks whose places have all been dealt with are one block of the
/// next level.
proof fn lemma_pair_end(
    src: Seq<int>,
    vals: Seq<int>,
    md: int,
    m: nat,
    len: int,
    stride: int,
    w2: int,
    w: int,
    c: int,
)
    requires
        m >= 1,
        len > 0,
        0 <= c,
        pair_ok(src, vals, md, m, len, stride, w2, w, c, c * (2 * len), len),
        level_ok(src, vals, md, (m - 1) as nat, 2 * len, stride / 2, w2, 0, c),
    ensures
        level_ok(src, vals, md, (m - 1) as nat, 2 * len, stride / 2, w2, 0, c + 1),
{
    let j = c * (2 * len);
    assert forall|b: int, k: int| 0 <= b < c + 1 && 0 <= k < 2 * len implies eqm(
        #[trigger] cell(vals, b, 2 * len, k),
        want(src, (m - 1) as nat, b, stride / 2, 2 * len, w2, k),
        md,
    ) by {
        if b == c {
            if k < len {
                assert(eqm(at(vals, j, k), want(src, (m - 1) as nat, c, stride / 2, 2 * len, w2,
                    k), md));
            } else {
                let k0 = k - len;
                assert(eqm(at(vals, j, k0), want(src, (m - 1) as nat, c, stride / 2, 2 * len, w2,
                    k0), md));
                assert(eqm(
                    at(vals, j + len, k0),
                    want(src, (m - 1) as nat, c, stride / 2, 2 * len, w2, len + k0),
                    md,
                ));
                assert(j + len + k0 == c * (2 * len) + k);
            }
        }
    }
}

/// One more place of each of two blocks is dealt with.
proof fn lemma_pair_step(
    src: Seq<int>,
    vals: Seq<int>,
    next: Seq<int>,
    md: int,
    m: nat,
    len: int,
    stride: int,
    w2: int,
    w: int,
    c: int,
    j: int,
    l: int,
)
    requires
        0 <= l < len,
        0 <= j,
        j + 2 * len <= vals.len(),
        next.len() == vals.len(),
        pair_ok(src, vals, md, m, len, stride, w2, w, c, j, l),
        forall|p: int| 0 <= p < vals.len() && p != j + l && p != j + len + l
            ==> #[trigger] next[p] == vals[p],
        eqm(next[j + l], want(src, (m - 1) as nat, c, stride / 2, 2 * len, w2, l), md),
        eqm(next[j + len + l], want(src, (m - 1) as nat, c, stride / 2, 2 * len, w2, len + l), md),
    ensures
        pair_ok(src, next, md, m, len, stride, w2, w, c, j, l + 1),
{
    assert forall|k: int| 0 <= k < l + 1 implies eqm(
        #[trigger] at(next, j, k),
        want(src, (m - 1) as nat, c, stride / 2, 2 * len, w2, k),
        md,
    ) && eqm(
        at(next, j + len, k),
        want(src, (m - 1) as nat, c, stride / 2, 2 * len, w2, len + k),
        md,
    ) by {
        if k < l {
            assert(next[j + k] == vals[j + k]);
            assert(next[j + len + k] == vals[j + len + k]);
            assert(eqm(at(vals, j, k), want(src, (m - 1) as nat, c, stride / 2, 2 * len, w2, k),
                md));
        }
    }
    assert forall|k: int| l + 1 <= k < len implies eqm(
        #[trigger] at(next, j, k),
        want(src, m, 2 * c, stride, len, w, k),
        md,
    ) && eqm(at(next, j + len, k), want(src, m, 2 * c + 1, stride, len, w, k), md) by {
        assert(next[j + k] == vals[j + k]);
        assert(next[j + len + k] == vals[j + len + k]);
        assert(eqm(at(vals, j, k), want(src, m, 2 * c, stride, len, w, k), md));
    }
}

/// A product with a positive number grows with the other factor.
proof fn lemma_next_block(c: int, s: int, h: int)
    requires
        0 <= c < s,
        h > 0,
    ensures
        (c + 1) * h <= s * h,
        c * h + h == (c + 1) * h,
        0 <= c * h,
{
    assert((c + 1) * h <= s * h) by (nonlinear_arith)
        requires
            c + 1 <= s,
            h > 0,
    ;
    assert(c * h + h == (c + 1) * h) by (nonlinear_arith);
    assert(0 <= c * h) by (nonlinear_arith)
        requires
            0 <= c,
            h > 0,
    ;
}

/// Equal products with a positive number have equal other factors.
proof fn lemma_same_block(c: int, s: int, h: int)
    requires
        c * h >= s * h,
        c <= s,
        h > 0,
    ensures
        c == s,
{
    assert(c == s) by (nonlinear_arith)
        requires
            c * h >= s * h,
            c <= s,
            h > 0,
    ;
}

/// Turns blocks of one element into their transform, level by level: the
/// elements of `a`, which are those of `src` at the places turned round,
/// become the transform of `src` by the root of the last level.
fn butterflies<const N: u32>(
    a: &mut Vec<ModInt<N>>,
    roots: &Vec<ModInt<N>>,
    levels: usize,
    Ghost(src): Ghost<Seq<int>>,
)
    requires
        N > 1,
        old(a)@.len() == pow2(levels as nat),
        src.len() == old(a)@.len(),
        roots_ok(roots@, levels as nat),
        forall|p: int| 0 <= p < old(a)@.len()
            ==> (#[trigger] old(a)@[p]).wf()
            && old(a)@[p].0 == src[rev(levels as nat, p as nat) as int],
    ensures
        final(a)@.len() == old(a)@.len(),
        forall|k: int|
            0 <= k < final(a)@.len() ==> (#[trigger] final(a)@[k]).wf() && eqm(
                final(a)@[k].0 as int,
                dft(src, 0, 1, final(a)@.len(), roots@[levels as int].0 as int, k),
                N as int,
            ),
{
    let n = a.len();
    let ghost md = N as int;
    let mut half: usize = 1;
    let mut i: usize = 0;
    let ghost mut stride: int = pow2(levels as nat) as int;
    proof {
        vstd::arithmetic::power2::lemma2_to64();
        lemma_pow2_pos(levels as nat);
        assert forall|b: int, k: int| 0 <= b < stride && 0 <= k < 1 implies eqm(
            #[trigger] cell(values(a@), b, 1, k),
            want(src, levels as nat, b, stride, 1, roots@[0].0 as int, k),
            md,
        ) by {
            let off = rev(levels as nat, b as nat) as int;
            let w = roots@[0].0 as int;
            assert(b * 1 + k == b);
            assert(a@[b].0 == src[off]);
            assert(dft(src, off, stride, 1, w, 0) == dft(src, off, stride, 0, w, 0) + term(src,
                off, stride, w, 0, 0));
            assert(0 * stride == 0);
            lemma_pow0(w);
            assert(term(src, off, stride, w, 0, 0) == src[off] * 1);
        }
    }
    while i < levels
        invariant
            N > 1,
            md == N as int,
            i <= levels,
            a@.len() == n,
            n == pow2(levels as nat),
            roots_ok(roots@, levels as nat),
            half == pow2(i as nat),
            stride == pow2((levels - i) as nat),
            half * stride == n,
            forall|p: int| 0 <= p < n ==> (#[trigger] a@[p]).wf(),
            level_ok(src, values(a@), md, (levels - i) as nat, half as int, stride,
                roots@[i as int].0 as int, 0, stride),
        decreases levels - i,
    {
        let r = roots[i + 1];
        let ghost m = (levels - i) as nat;
        let ghost w = roots@[i as int].0 as int;
        let ghost w2 = r.0 as int;
        let ghost pairs = stride / 2;
        proof {
            lemma_pow2_unfold(m);
            lemma_pow2_unfold((i + 1) as nat);
            lemma_pow2_pos((m - 1) as nat);
            assert(stride == 2 * pairs);
            assert(half * stride == (2 * half) * pairs) by (nonlinear_arith)
                requires
                    stride == 2 * pairs,
            ;
            lemma_root_order(roots@, levels as nat, i as int);
            assert(eqm(w2 * w2, w, md));
            assert(eqm(pow(w2, half as nat), -1, md));
            lemma_pow2_pos(i as nat);
            assert(stride * half == half * stride) by (nonlinear_arith);
            assert(2 * half <= n) by (nonlinear_arith)
                requires
                    (2 * half) * pairs == n,
                    pairs >= 1,
                    half > 0,
            ;
        }
        let mut j: usize = 0;
        let ghost mut c: int = 0;
        while j < n
            invariant
                N > 1,
                md == N as int,
                i < levels,
                m == (levels - i) as nat,
                a@.len() == n,
                roots_ok(roots@, levels as nat),
                r == roots@[i + 1],
                w == roots@[i as int].0 as int,
                w2 == r.0 as int,
                r.wf(),
                half == pow2(i as nat),
                half > 0,
                stride == pow2(m),
                stride == 2 * pairs,
                (2 * half) * pairs == n,
                stride * half == n,
                0 <= c <= pairs,
                j == c * (2 * half),
                eqm(w2 * w2, w, md),
                eqm(pow(w, half as nat), 1, md),
                eqm(pow(w2, half as nat), -1, md),
                forall|p: int| 0 <= p < n ==> (#[trigger] a@[p]).wf(),
                level_ok(src, values(a@), md, (m - 1) as nat, 2 * half, pairs, w2, 0, c),
                level_ok(src, values(a@), md, m, half as int, stride, w, 2 * c, stride),
            decreases n - j,
        {
            proof {
                if c >= pairs {
                    assert(c * (2 * half) == (2 * half) * pairs) by (nonlinear_arith)
                        requires
                            c == pairs,
                    ;
                }
                lemma_next_block(c, pairs, 2 * half);
                assert(pairs * (2 * half) == (2 * half) * pairs) by (nonlinear_arith);
                assert((2 * c + 2) * half == c * (2 * half) + 2 * half) by (nonlinear_arith);
                lemma_pair_begin(src, values(a@), md, m, half as int, stride, w2, w, c, stride);
                lemma_pow0(w2);
            }
            let mut s = ModInt::<N>::new(1);
            let mut l: usize = 0;
            proof {
                lemma_small_mod(1, N as nat);
            }
            while l < half
                invariant
                    N > 1,
                    md == N as int,
                    m >= 1,
                    a@.len() == n,
                    r.wf(),
                    w2 == r.0 as int,
                    half > 0,
                    stride == pow2(m),
                    stride == 2 * pairs,
                    stride * half == n,
                    0 <= c < pairs,
                    j == c * (2 * half),
                    j + 2 * half <= n,
                    (2 * c + 2) * half == j + 2 * half,
                    l <= half,
                    s.wf(),
                    eqm(s.0 as int, pow(w2, l as nat), md),
                    eqm(w2 * w2, w, md),
                    eqm(pow(w, half as nat), 1, md),
                    eqm(pow(w2, half as nat), -1, md),
                    forall|p: int| 0 <= p < n ==> (#[trigger] a@[p]).wf(),
                    pair_ok(src, values(a@), md, m, half as int, stride, w2, w, c, j as int,
                        l as int),
                    level_ok(src, values(a@), md, (m - 1) as nat, 2 * half, pairs, w2, 0, c),
                    level_ok(src, values(a@), md, m, half as int, stride, w, 2 * c + 2, stride),
                decreases half - l,
            {
                let x = a[j + l];
                let y = a[j + half + l];
                let ys = y * s;
                let lo = x + ys;
                let hi = x - ys;
                let ghost before = values(a@);
                a.set(j + l, lo);
                a.set(j + half + l, hi);
                let ghost after = values(a@);
                proof {
                    let e = want(src, m, 2 * c, stride, half as int, w, l as int);
                    let o = want(src, m, 2 * c + 1, stride, half as int, w, l as int);
                    let pw = pow(w2, l as nat);
                    assert(eqm(at(before, j as int, l as int), e, md));
                    assert(eqm(at(before, j + half, l as int), o, md));
                    assert(before[j + l] == x.0);
                    assert(before[j + half + l] == y.0);
                    lemma_step(x.0 as int, y.0 as int, s.0 as int, e, o, pw, md);
                    lemma_butterfly(src, md, m, half as int, stride, w2, w, c, l as int);
                    assert(ys.0 as int == (y.0 * s.0) % md);
                    assert(lo.0 as int == (x.0 + ys.0) % md);
                    assert(hi.0 as int == (x.0 - ys.0) % md);
                    assert(after[j + l] == lo.0);
                    assert(after[j + half + l] == hi.0);
                    assert forall|p: int| 0 <= p < before.len() && p != j + l && p != j + half + l
                        implies #[trigger] after[p] == before[p] by {}
                    lemma_pair_step(src, before, after, md, m, half as int, stride, w2, w, c,
                        j as int, l as int);
                    lemma_level_kept(src, before, after, md, (m - 1) as nat, 2 * half, pairs, w2,
                        0, c);
                    lemma_level_kept(src, before, after, md, m, half as int, stride, w, 2 * c + 2,
                        stride);
                    // the next power of the root
                    lemma_pow_adds(w2, l as nat, 1);
                    lemma_pow1(w2);
                    lemma_eqm_mul(s.0 as int, pw, w2, w2, md);
                    vstd::arithmetic::div_mod::lemma_mod_twice(s.0 * r.0, md);
                }
                s = s * r;
                l += 1;
            }
            proof {
                lemma_pair_end(src, values(a@), md, m, half as int, stride, w2, w, c);
                c = c + 1;
            }
            j += 2 * half;
        }
        proof {
            assert(c * (2 * half) >= pairs * (2 * half)) by (nonlinear_arith)
                requires
                    c * (2 * half) >= n,
                    (2 * half) * pairs == n,
            ;
            lemma_same_block(c, pairs, 2 * half);
            stride = pairs;
        }
        half = 2 * half;
        i += 1;
    }
    proof {
        vstd::arithmetic::power2::lemma2_to64();
        assert(stride == 1);
        assert forall|k: int| 0 <= k < a@.len() implies (#[trigger] a@[k]).wf() && eqm(
            a@[k].0 as int,
            dft(src, 0, 1, a@.len(), roots@[levels as int].0 as int, k),
            N as int,
        ) by {
            assert(eqm(
                cell(values(a@), 0, half as int, k),
                want(src, 0, 0, 1, half as int, roots@[levels as int].0 as int, k),
                md,
            ));
            assert(0 * (half as int) + k == k);
        }
    }
}

/// The place `p` of `levels` binary digits, turned round.
fn turned_index(p: usize, levels: usize, n: usize) -> (q: usize)
    requires
        n == pow2(levels as nat),
        p < n,
    ensures
        q == rev(levels as nat, p as nat),
        q < n,
{
    let mut acc: usize = 0;
    let mut x: usize = p;
    let mut bit: usize = n;
    let ghost mut w: nat = levels as nat;
    proof {
        lemma_rev_bound(levels as nat, p as nat);
        vstd::arithmetic::power2::lemma2_to64();
    }
    while bit > 1
        invariant
            bit == pow2(w),
            w <= levels,
            acc + rev(w, x as nat) == rev(levels as nat, p as nat),
            rev(levels as nat, p as nat) < n,
        decreases bit,
    {
        proof {
            if w == 0 {
                vstd::arithmetic::power2::lemma2_to64();
            }
            lemma_pow2_unfold(w);
            lemma_pow2_pos((w - 1) as nat);
            assert(rev(w, x as nat) == rev((w - 1) as nat,
                (x as nat) / 2) + ((x as nat) % 2) * pow2((w - 1) as nat));
            if x % 2 == 1 {
                assert(1 * pow2((w - 1) as nat) == pow2((w - 1) as nat));
            } else {
                assert(0 * pow2((w - 1) as nat) == 0);
            }
            w = (w - 1) as nat;
        }
        bit = bit / 2;
        if x % 2 == 1 {
            acc = acc + bit;
        }
        x = x / 2;
    }
    proof {
        if w > 0 {
            lemma_pow2_unfold(w);
            lemma_pow2_pos((w - 1) as nat);
        }
    }
    acc
}

/// The elements of `a`, each from the place that is its own turned round.
fn turned<const N: u32>(a: &Vec<ModInt<N>>, levels: usize) -> (r: Vec<ModInt<N>>)
    requires
        a@.len() == pow2(levels as nat),
    ensures
        r@.len() == a@.len(),
        forall|p: int| 0 <= p < r@.len()
            ==> #[trigger] r@[p] == a@[rev(levels as nat, p as nat) as int],
{
    let n = a.len();
    let mut r: Vec<ModInt<N>> = Vec::new();
    let mut p: usize = 0;
    while p < n
        invariant
            n == a@.len(),
            n == pow2(levels as nat),
            p <= n,
            r@.len() == p,
            forall|q: int| 0 <= q < p
                ==> #[trigger] r@[q] == a@[rev(levels as nat, q as nat) as int],
        decreases n - p,
    {
        let q = turned_index(p, levels, n);
        r.push(a[q]);
        p += 1;
    }
    r
}

/// How often 2 divides `x`.
pub open spec fn twos(x: nat) -> nat
    decreases x,
{
    if x == 0 || x % 2 == 1 {
        0
    } else {
        1 + twos(x / 2)
    }
}

/// What is left of `x` when 2 has been divided out of it as often as it
/// goes.
pub open spec fn odd_part(x: nat) -> nat
    decreases x,
{
    if x == 0 || x % 2 == 1 {
        x
    } else {
        odd_part(x / 2)
    }
}

/// The greatest number of levels of a transform modulo `n`: how often 2
/// divides the totient of `n`.
pub open spec fn depth(n: nat) -> nat {
    twos(phi_spec(n))
}

/// What the number `s` gives as the root of the last level modulo `n`.
pub open spec fn top_of(n: nat, s: nat) -> int {
    pow(s as int, odd_part(phi_spec(n))) % (n as int)
}

/// Whether the number `s` gives the roots of all levels modulo `n`: the
/// power of the root of the last level to half the length of that level
/// leaves the rest -1.
pub open spec fn is_seed(n: nat, s: nat) -> bool {
    depth(n) >= 1 && eqm(pow(top_of(n, s), pow2((depth(n) - 1) as nat)), -1, n as int)
}

/// The least number from `s` on, below `n`, that gives the roots; `n` where
/// there is none.
pub open spec fn seed_from(n: nat, s: nat) -> nat
    decreases n - s,
{
    if s >= n {
        n
    } else if is_seed(n, s) {
        s
    } else {
        seed_from(n, s + 1)
    }
}

/// Whether a number from 2 on gives the roots modulo `n`.
pub open spec fn has_roots(n: nat) -> bool {
    seed_from(n, 2) < n
}

/// The root of the level `j` modulo `n`: that of the last level comes from
/// the least number that gives the roots, and that of each level before is
/// the square of the next.
pub open spec fn root(n: nat, j: nat) -> int
    decreases depth(n) - j,
{
    if j >= depth(n) {
        top_of(n, seed_from(n, 2))
    } else {
        (root(n, j + 1) * root(n, j + 1)) % (n as int)
    }
}

/// The root of the level `j` modulo `n` for the way back: the power of the
/// root to the totient of `n` less one.
pub open spec fn back_root(n: nat, j: nat) -> int {
    pow(root(n, j), (phi_spec(n) - 1) as nat) % (n as int)
}

/// Divides 2 out of `x` as often as it goes, and counts.
fn split_twos(x: u32) -> (r: (u32, u32))
    requires
        x >= 1,
    ensures
        r.0 == odd_part(x as nat),
        r.1 == twos(x as nat),
        r.1 < 32,
        r.0 * pow2(r.1 as nat) == x,
{
    let mut t = x;
    let mut d: u32 = 0;
    proof {
        vstd::arithmetic::power2::lemma2_to64();
    }
    while t % 2 == 0
        invariant
            t >= 1,
            odd_part(t as nat) == odd_part(x as nat),
            twos(t as nat) + d == twos(x as nat),
            t * pow2(d as nat) == x,
            d < 32,
        decreases t,
    {
        proof {
            lemma_pow2_unfold((d + 1) as nat);
            assert((t / 2) * pow2((d + 1) as nat) == t * pow2(d as nat)) by (nonlinear_arith)
                requires
                    t % 2 == 0,
                    pow2((d + 1) as nat) == 2 * pow2(d as nat),
            ;
            if d + 1 >= 32 {
                vstd::arithmetic::power2::lemma2_to64();
                lemma_pow2_unfold(32);
                assert((t / 2) * pow2(32) >= pow2(32)) by (nonlinear_arith)
                    requires
                        t / 2 >= 1,
                ;
            }
        }
        t = t / 2;
        d = d + 1;
    }
    (t, d)
}

/// `x` squared `times` times.
fn squared<const N: u32>(x: ModInt<N>, times: u32) -> (r: ModInt<N>)
    requires
        N > 1,
        x.wf(),
    ensures
        r.wf(),
        eqm(r.0 as int, pow(x.0 as int, pow2(times as nat)), N as int),
{
    let mut r = x;
    let mut i: u32 = 0;
    proof {
        vstd::arithmetic::power2::lemma2_to64();
        lemma_pow1(x.0 as int);
    }
    while i < times
        invariant
            N > 1,
            i <= times,
            r.wf(),
            eqm(r.0 as int, pow(x.0 as int, pow2(i as nat)), N as int),
        decreases times - i,
    {
        proof {
            let e = pow2(i as nat);
            let v = pow(x.0 as int, e);
            lemma_pow2_unfold((i + 1) as nat);
            lemma_pow_adds(x.0 as int, e, e);
            lemma_eqm_mul(r.0 as int, v, r.0 as int, v, N as int);
            vstd::arithmetic::div_mod::lemma_mod_twice(r.0 * r.0, N as int);
        }
        r = r * r;
        i += 1;
    }
    r
}

/// The rest of -1 is the modulus less one.
proof fn lemma_minus_one(x: int, md: int)
    requires
        md > 1,
        0 <= x < md,
    ensures
        eqm(x, -1, md) <==> x == md - 1,
{
    vstd::arithmetic::div_mod::lemma_mod_multiples_vanish(1, -1, md);
    lemma_small_mod((md - 1) as nat, md as nat);
    lemma_small_mod(x as nat, md as nat);
}

/// Where no number gives the roots at `s`, the least one from `s` on is the
/// least one from `s + 1` on; and there is none where 2 does not divide the
/// totient.
proof fn lemma_no_seed(n: nat, s: nat)
    requires
        depth(n) == 0,
    ensures
        seed_from(n, s) >= n,
    decreases n - s,
{
    if s < n {
        lemma_no_seed(n, s + 1);
    }
}

/// The roots of the levels up to `depth(N)`, where a number gives them.
fn roots_table<const N: u32>() -> (r: Option<Vec<ModInt<N>>>)
    requires
        N > 1,
    ensures
        match r {
            Some(t) => {
                &&& has_roots(N as nat)
                &&& depth(N as nat) < 32
                &&& t@.len() == depth(N as nat) + 1
                &&& roots_ok(t@, depth(N as nat))
                &&& forall|j: int| 0 <= j <= depth(N as nat)
                    ==> (#[trigger] t@[j]).0 == root(N as nat, j as nat)
            },
            None => !has_roots(N as nat),
        },
{
    let ghost md = N as int;
    let phi = phi_const(N);
    proof {
        lemma_phi_positive(N as nat);
    }
    let (odd, d) = split_twos(phi);
    if d == 0 {
        proof {
            lemma_no_seed(N as nat, 2);
        }
        return None;
    }
    let mut s: u32 = 2;
    while s < N
        invariant
            N > 1,
            md == N as int,
            2 <= s <= N,
            d >= 1,
            d < 32,
            d == depth(N as nat),
            odd == odd_part(phi_spec(N as nat)),
            seed_from(N as nat, s as nat) == seed_from(N as nat, 2),
        decreases N - s,
    {
        let cand = ModInt::<N>::new(s).pow(odd);
        let raised = squared(cand, d - 1);
        proof {
            lemma_small_mod(s as nat, N as nat);
            assert(cand.0 as int == top_of(N as nat, s as nat));
            lemma_minus_one(raised.0 as int, md);
        }
        if raised.val() == N - 1 {
            assert(is_seed(N as nat, s as nat));
            let mut table: Vec<ModInt<N>> = Vec::new();
            let mut i: u32 = 0;
            while i <= d
                invariant
                    i <= d + 1,
                    d < 32,
                    table@.len() == i,
                    forall|j: int| 0 <= j < i ==> #[trigger] table@[j] == cand,
                decreases d + 1 - i,
            {
                table.push(cand);
                i += 1;
            }
            let mut j: u32 = d;
            while j > 0
                invariant
                    N > 1,
                    md == N as int,
                    d >= 1,
                    d == depth(N as nat),
                    j <= d,
                    table@.len() == d + 1,
                    cand.wf(),
                    table@[d as int] == cand,
                    cand.0 as int == top_of(N as nat, seed_from(N as nat, 2)),
                    forall|k: int| j <= k <= d
                        ==> (#[trigger] table@[k]).wf() && table@[k].0 == root(N as nat, k as nat),
                    forall|k: int|
                        j < k <= d ==> eqm((#[trigger] table@[k]).0 * table@[k].0,
                            table@[k - 1].0 as int, md),
                    forall|k: int|
                        j <= k <= d && k >= 1
                            ==> eqm(pow((#[trigger] table@[k]).0 as int, pow2((k - 1) as nat)), -1,
                            md),
                decreases j,
            {
                let above = table[j as usize];
                let below = above * above;
                let ghost held = table@;
                table.set((j - 1) as usize, below);
                proof {
                    let v = above.0 as int;
                    assert(below.0 as int == (v * v) % md);
                    vstd::arithmetic::div_mod::lemma_mod_twice(v * v, md);
                    assert(root(N as nat, (j - 1) as nat) == (root(N as nat,
                        j as nat) * root(N as nat, j as nat)) % md);
                    assert forall|k: int| j - 1 <= k <= d
                        implies (#[trigger] table@[k]).wf()
                        && table@[k].0 == root(N as nat, k as nat) by {
                        if k >= j {
                            assert(table@[k] == held[k]);
                        }
                    }
                    assert forall|k: int| j - 1 < k <= d implies eqm(
                        (#[trigger] table@[k]).0 * table@[k].0,
                        table@[k - 1].0 as int,
                        md,
                    ) by {
                        assert(table@[k] == held[k]);
                        if k > j {
                            assert(table@[k - 1] == held[k - 1]);
                        }
                    }
                    assert forall|k: int| j - 1 <= k <= d && k >= 1 implies eqm(
                        pow((#[trigger] table@[k]).0 as int, pow2((k - 1) as nat)),
                        -1,
                        md,
                    ) by {
                        if k >= j {
                            assert(table@[k] == held[k]);
                        } else {
                            // the square of the root above, to half its exponent
                            let e = pow2((j - 2) as nat);
                            lemma_pow2_unfold((j - 1) as nat);
                            lemma_eqm_pow(below.0 as int, v * v, e, md);
                            lemma_pow_twice(v, e);
                            assert(pow(v, pow2((j - 1) as nat)) == pow(v * v, e));
                            assert(eqm(pow(held[j as int].0 as int, pow2((j - 1) as nat)), -1, md));
                        }
                    }
                }
                j -= 1;
            }
            return Some(table);
        }
        s += 1;
    }
    None
}

/// The number of binary digits of `n - 1`: the number of levels of a
/// transform of `n` elements.
pub open spec fn levels_of(n: nat) -> nat
    decreases n,
{
    if n <= 1 {
        0
    } else {
        1 + levels_of(n / 2)
    }
}

/// Whether sequences of `len` elements can be transformed modulo `n`: `len`
/// is a power of two, and where it is more than 1, a number gives the roots
/// modulo `n` and 2 divides the totient of `n` as often as there are levels.
pub open spec fn transformable(n: nat, len: nat) -> bool {
    &&& len == pow2(levels_of(len))
    &&& len > 1 ==> has_roots(n) && levels_of(len) <= depth(n)
}

/// The number of levels of a transform of `n` elements.
fn count_levels(n: usize) -> (r: usize)
    requires
        n >= 1,
    ensures
        r == levels_of(n as nat),
        r < 64,
{
    let mut m = n;
    let mut r: usize = 0;
    proof {
        vstd::arithmetic::power2::lemma2_to64();
    }
    while m > 1
        invariant
            m >= 1,
            r + levels_of(m as nat) == levels_of(n as nat),
            m * pow2(r as nat) <= n,
            r < 64,
        decreases m,
    {
        proof {
            lemma_pow2_unfold((r + 1) as nat);
            assert((m / 2) * pow2((r + 1) as nat) <= m * pow2(r as nat)) by (nonlinear_arith)
                requires
                    pow2((r + 1) as nat) == 2 * pow2(r as nat),
                    m >= 0,
            ;
            if r + 1 >= 64 {
                vstd::arithmetic::power2::lemma2_to64();
                vstd::arithmetic::power2::lemma2_to64_rest();
                assert((m / 2) * pow2((r + 1) as nat) >= pow2(64)) by (nonlinear_arith)
                    requires
                        m / 2 >= 1,
                        pow2((r + 1) as nat) >= pow2(64),
                        r + 1 == 64,
                ;
            }
        }
        m = m / 2;
        r = r + 1;
    }
    proof {
        vstd::arithmetic::power2::lemma2_to64();
    }
    r
}

/// Whether sequences of `len` elements can be transformed modulo `N`.
pub fn can_transform<const N: u32>(len: usize) -> (r: bool)
    requires
        N > 1,
    ensures
        r == transformable(N as nat, len as nat),
{
    if len == 0 {
        proof {
            lemma_pow2_pos(levels_of(0));
        }
        return false;
    }
    let levels = count_levels(len);
    if levels >= 63 {
        proof {
            // a length of 64 digits is no power of two that a `usize` holds
            vstd::arithmetic::power2::lemma2_to64_rest();
            if levels > 63 {
                vstd::arithmetic::power2::lemma_pow2_strictly_increases(63, levels as nat);
            }
            lemma_levels_low(len as nat);
        }
        if levels > 63 {
            return false;
        }
    }
    proof {
        vstd::bits::lemma_u64_pow2_no_overflow(levels as nat);
        vstd::bits::lemma_u64_shl_is_mul(1, levels as u64);
        lemma_levels_low(len as nat);
    }
    let power = (1u64 << (levels as u64)) as usize;
    if power != len {
        return false;
    }
    if levels == 0 {
        proof {
            vstd::arithmetic::power2::lemma2_to64();
        }
        return true;
    }
    proof {
        lemma_pow2_unfold(levels as nat);
        lemma_pow2_pos((levels - 1) as nat);
    }
    match roots_table::<N>() {
        Some(table) => levels < table.len(),
        None => false,
    }
}

/// A number is not below the power of two with as many levels as it has.
proof fn lemma_levels_low(n: nat)
    requires
        n >= 1,
    ensures
        pow2(levels_of(n)) <= n,
    decreases n,
{
    vstd::arithmetic::power2::lemma2_to64();
    if n > 1 {
        lemma_levels_low(n / 2);
        lemma_pow2_unfold(levels_of(n));
    }
}

/// The transform of a single element is the element.
proof fn lemma_dft_one(src: Seq<int>, w: int)
    ensures
        dft(src, 0, 1, 1, w, 0) == src[0],
{
    assert(dft(src, 0, 1, 1, w, 0) == dft(src, 0, 1, 0, w, 0) + term(src, 0, 1, w, 0, 0));
    lemma_pow0(w);
    assert(0 * 1 == 0);
    assert(term(src, 0, 1, w, 0, 0) == src[0] * 1);
}

/// The roots of the first levels of a table are roots.
proof fn lemma_roots_prefix<const N: u32>(roots: Seq<ModInt<N>>, all: nat, levels: nat)
    requires
        roots_ok(roots, all),
        levels <= all,
    ensures
        roots_ok(roots, levels),
{
}

/// The transform of `a` by the roots in `table`, in place.
fn transform<const N: u32>(a: &mut Vec<ModInt<N>>, table: &Vec<ModInt<N>>, levels: usize)
    requires
        N > 1,
        old(a)@.len() == pow2(levels as nat),
        roots_ok(table@, levels as nat),
        forall|i: int| 0 <= i < old(a)@.len() ==> (#[trigger] old(a)@[i]).wf(),
    ensures
        final(a)@.len() == old(a)@.len(),
        forall|k: int|
            0 <= k < final(a)@.len() ==> (#[trigger] final(a)@[k]).wf() && final(a)@[k].0 == dft(
                values(old(a)@),
                0,
                1,
                old(a)@.len(),
                table@[levels as int].0 as int,
                k,
            ) % (N as int),
{
    let ghost src = values(a@);
    let b = turned(a, levels);
    proof {
        assert forall|p: int| 0 <= p < b@.len()
            implies (#[trigger] b@[p]).wf()
            && b@[p].0 == src[rev(levels as nat, p as nat) as int] by {
            lemma_rev_bound(levels as nat, p as nat);
        }
    }
    *a = b;
    butterflies(a, table, levels, Ghost(src));
    proof {
        assert forall|k: int| 0 <= k < a@.len() implies (#[trigger] a@[k]).wf() && a@[k].0 == dft(
            src,
            0,
            1,
            a@.len(),
            table@[levels as int].0 as int,
            k,
        ) % (N as int) by {
            lemma_small_mod(a@[k].0 as nat, N as nat);
        }
    }
}

/// Turns `a` into its transform: the element at `k` becomes the sum of the
/// elements `a[t]` times the power of the root of the last level to
/// `t * k`, modulo `N`.
pub fn fft<const N: u32>(a: &mut Vec<ModInt<N>>)
    requires
        N > 1,
        transformable(N as nat, old(a)@.len()),
        forall|i: int| 0 <= i < old(a)@.len() ==> (#[trigger] old(a)@[i]).wf(),
    ensures
        final(a)@.len() == old(a)@.len(),
        forall|k: int|
            0 <= k < final(a)@.len() ==> (#[trigger] final(a)@[k]).wf() && final(a)@[k].0 == dft(
                values(old(a)@),
                0,
                1,
                old(a)@.len(),
                root(N as nat, levels_of(old(a)@.len())),
                k,
            ) % (N as int),
{
    let n = a.len();
    proof {
        lemma_pow2_pos(levels_of(n as nat));
    }
    let levels = count_levels(n);
    if levels == 0 {
        proof {
            vstd::arithmetic::power2::lemma2_to64();
            lemma_dft_one(values(a@), root(N as nat, 0));
            lemma_small_mod(a@[0].0 as nat, N as nat);
        }
        return ;
    }
    match roots_table::<N>() {
        Some(table) => {
            proof {
                lemma_roots_prefix(table@, depth(N as nat), levels as nat);
            }
            transform(a, &table, levels);
        },
        None => {
            proof {
                vstd::arithmetic::power2::lemma2_to64();
                assert(false);
            }
        },
    }
}

/// Every odd power of -1 is -1.
proof fn lemma_minus_one_pow(e: nat)
    requires
        e % 2 == 1,
    ensures
        pow(-1, e) == -1,
    decreases e,
{
    lemma_pow1(-1);
    if e > 1 {
        lemma_minus_one_pow((e - 2) as nat);
        lemma_pow_adds(-1, 2, (e - 2) as nat);
        lemma_pow_adds(-1, 1, 1);
        assert((-1) * (-1) == 1) by (nonlinear_arith);
    }
}

/// The inverse, modulo `n`, of a number `x` that has no factor in common
/// with `n`: the power of `x` to the totient of `n` less one.
pub open spec fn inverse_of(n: nat, x: nat) -> int {
    pow((x % n) as int, (phi_spec(n) - 1) as nat) % (n as int)
}

/// The powers of roots to an odd exponent are roots.
proof fn lemma_back_roots<const N: u32>(roots: Seq<ModInt<N>>, back: Seq<ModInt<N>>, levels: nat,
    e: nat)
    requires
        N > 1,
        e % 2 == 1,
        roots_ok(roots, levels),
        back.len() == levels + 1,
        forall|j: int|
            0 <= j <= levels ==> (#[trigger] back[j]).wf()
                && back[j].0 == pow(roots[j].0 as int, e) % (N as int),
    ensures
        roots_ok(back, levels),
{
    let md = N as int;
    assert forall|j: int| 1 <= j <= levels implies eqm(
        (#[trigger] back[j]).0 * back[j].0,
        back[j - 1].0 as int,
        md,
    ) && eqm(pow(back[j].0 as int, pow2((j - 1) as nat)), -1, md) by {
        let r = roots[j].0 as int;
        let q = roots[j - 1].0 as int;
        let b = back[j].0 as int;
        let h = pow2((j - 1) as nat);
        assert(roots[j].wf() && back[j - 1].wf());
        assert(eqm(r * r, q, md));
        vstd::arithmetic::div_mod::lemma_mod_twice(pow(r, e), md);
        vstd::arithmetic::div_mod::lemma_mod_twice(pow(q, e), md);
        assert(eqm(b, pow(r, e), md));
        lemma_eqm_mul(b, pow(r, e), b, pow(r, e), md);
        vstd::arithmetic::power::lemma_pow_distributes(r, r, e);
        lemma_eqm_pow(r * r, q, e, md);
        assert(eqm(back[j - 1].0 as int, pow(q, e), md));
        // to half the length of the level
        lemma_eqm_pow(b, pow(r, e), h, md);
        lemma_pow_multiplies(r, e, h);
        lemma_pow_multiplies(r, h, e);
        assert(e * h == h * e) by (nonlinear_arith);
        lemma_eqm_pow(pow(r, h), -1, e, md);
        lemma_minus_one_pow(e);
    }
}

/// The roots for the way back, of the levels up to `levels`: the powers of
/// the roots to the totient of `N` less one.
fn back_table<const N: u32>(table: &Vec<ModInt<N>>, levels: usize) -> (back: Vec<ModInt<N>>)
    requires
        N > 1,
        1 <= levels <= depth(N as nat),
        depth(N as nat) < 32,
        table@.len() == depth(N as nat) + 1,
        roots_ok(table@, depth(N as nat)),
        forall|j: int| 0 <= j <= depth(N as nat)
            ==> (#[trigger] table@[j]).0 == root(N as nat, j as nat),
    ensures
        back@.len() == levels + 1,
        roots_ok(back@, levels as nat),
        roots_ok(table@, levels as nat),
        forall|j: int| 0 <= j <= levels
            ==> (#[trigger] back@[j]).0 == back_root(N as nat, j as nat),
{
    let phi = phi_const(N);
    let mut back: Vec<ModInt<N>> = Vec::new();
    let mut j: usize = 0;
    proof {
        lemma_phi_positive(N as nat);
    }
    while j <= levels
        invariant
            N > 1,
            phi == phi_spec(N as nat),
            phi >= 1,
            levels <= depth(N as nat),
            depth(N as nat) < 32,
            table@.len() == depth(N as nat) + 1,
            roots_ok(table@, depth(N as nat)),
            j <= levels + 1,
            back@.len() == j,
            forall|i: int|
                0 <= i < j ==> (#[trigger] back@[i]).wf() && back@[i].0 == pow(
                    table@[i].0 as int,
                    (phi - 1) as nat,
                ) % (N as int),
        decreases levels + 1 - j,
    {
        assert(table@[j as int].wf());
        let r = table[j].pow(phi - 1);
        back.push(r);
        j += 1;
    }
    proof {
        lemma_roots_prefix(table@, depth(N as nat), levels as nat);
        assert(twos(phi as nat) >= 1);
        assert(phi % 2 == 0);
        lemma_back_roots(table@, back@, levels as nat, (phi - 1) as nat);
    }
    back
}

/// Turns `a` back from its transform: the element at `k` becomes the sum of
/// the elements `a[t]` times the power of the root for the way back to
/// `t * k`, times the inverse of the length, modulo `N`.
pub fn ifft<const N: u32>(a: &mut Vec<ModInt<N>>)
    requires
        N > 1,
        transformable(N as nat, old(a)@.len()),
        forall|i: int| 0 <= i < old(a)@.len() ==> (#[trigger] old(a)@[i]).wf(),
    ensures
        final(a)@.len() == old(a)@.len(),
        forall|k: int|
            0 <= k < final(a)@.len() ==> (#[trigger] final(a)@[k]).wf() && final(a)@[k].0 == (dft(
                values(old(a)@),
                0,
                1,
                old(a)@.len(),
                back_root(N as nat, levels_of(old(a)@.len())),
                k,
            ) * inverse_of(N as nat, old(a)@.len())) % (N as int),
{
    let n = a.len();
    let ghost md = N as int;
    let ghost src = values(a@);
    proof {
        lemma_pow2_pos(levels_of(n as nat));
    }
    let levels = count_levels(n);
    let ghost w = back_root(N as nat, levels as nat);
    if levels == 0 {
        proof {
            vstd::arithmetic::power2::lemma2_to64();
            lemma_dft_one(src, w);
            lemma_small_mod(a@[0].0 as nat, N as nat);
        }
    } else {
        match roots_table::<N>() {
            Some(table) => {
                let back = back_table(&table, levels);
                proof {
                    assert(back@[levels as int].0 as int == w);
                }
                transform(a, &back, levels);
            },
            None => {
                proof {
                    vstd::arithmetic::power2::lemma2_to64();
                    assert(false);
                }
            },
        }
    }
    proof {
        assert(n <= u32::MAX) by {
            vstd::arithmetic::power2::lemma2_to64();
            vstd::arithmetic::power2::lemma2_to64_rest();
            if levels >= 1 {
                vstd::arithmetic::power2::lemma_pow2_strictly_increases(levels as nat, 32);
            }
        }
    }
    let scale = ModInt::<N>::new(n as u32).inv();
    let ghost mid = a@;
    let mut k: usize = 0;
    while k < n
        invariant
            N > 1,
            md == N as int,
            a@.len() == n,
            mid.len() == n,
            k <= n,
            scale.wf(),
            scale.0 as int == inverse_of(N as nat, n as nat),
            forall|i: int| 0 <= i < n
                ==> (#[trigger] mid[i]).wf() && mid[i].0 == dft(src, 0, 1, n as nat, w, i) % md,
            forall|i: int| k <= i < n ==> #[trigger] a@[i] == mid[i],
            forall|i: int|
                0 <= i < k ==> (#[trigger] a@[i]).wf()
                    && a@[i].0 == (dft(src, 0, 1, n as nat, w, i) * inverse_of(
                    N as nat,
                    n as nat,
                )) % md,
        decreases n - k,
    {
        let v = a[k] * scale;
        proof {
            let d = dft(src, 0, 1, n as nat, w, k as int);
            lemma_mul_mod_noop_general(d, scale.0 as int, md);
            lemma_small_mod(scale.0 as nat, N as nat);
        }
        a.set(k, v);
        k += 1;
    }
}

/// The elements of `a`, and zeros behind them up to the length `n`.
fn padded<const N: u32>(a: &[ModInt<N>], n: usize) -> (r: Vec<ModInt<N>>)
    requires
        N > 1,
        a@.len() <= n,
        forall|i: int| 0 <= i < a@.len() ==> (#[trigger] a@[i]).wf(),
    ensures
        r@.len() == n,
        forall|i: int| 0 <= i < n ==> (#[trigger] r@[i]).wf() && r@[i].0 == coeff(values(a@), i),
{
    let mut r: Vec<ModInt<N>> = Vec::new();
    let mut i: usize = 0;
    let zero = ModInt::<N>::new(0);
    proof {
        lemma_small_mod(0, N as nat);
    }
    while i < n
        invariant
            N > 1,
            i <= n,
            a@.len() <= n,
            r@.len() == i,
            zero.wf(),
            zero.0 == 0,
            forall|j: int| 0 <= j < a@.len() ==> (#[trigger] a@[j]).wf(),
            forall|j: int| 0 <= j < i
                ==> (#[trigger] r@[j]).wf() && r@[j].0 == coeff(values(a@), j),
        decreases n - i,
    {
        if i < a.len() {
            r.push(a[i]);
        } else {
            r.push(zero);
        }
        i += 1;
    }
    r
}

/// The number of levels of the least transform that holds `len` elements:
/// the least number with `2^levels >= len`.
pub open spec fn cover_levels(len: nat) -> nat {
    if len <= 1 {
        0
    } else {
        levels_of((len - 1) as nat) + 1
    }
}

/// Whether the product of a polynomial of `la` coefficients and one of `lb`
/// can be had by way of transforms modulo `n`: the product has two
/// coefficients or more, a number gives the roots, 2 divides the totient of
/// `n` as often as the least transform that holds the product has levels,
/// and the length of that transform has an inverse modulo `n`.
pub open spec fn transform_serves(n: nat, la: nat, lb: nat) -> bool {
    let len = (la + lb - 1) as nat;
    let size = pow2(cover_levels(len));
    &&& la >= 1
    &&& lb >= 1
    &&& len >= 2
    &&& has_roots(n)
    &&& cover_levels(len) <= depth(n)
    &&& (size * inverse_of(n, size)) % (n as int) == 1
}

/// A number that is not below `2^k` has `k` levels or more.
proof fn lemma_levels_least(x: nat, k: nat)
    requires
        pow2(k) <= x,
    ensures
        levels_of(x) >= k,
    decreases k,
{
    vstd::arithmetic::power2::lemma2_to64();
    if k > 0 {
        lemma_pow2_unfold(k);
        lemma_pow2_pos((k - 1) as nat);
        lemma_levels_least(x / 2, (k - 1) as nat);
    }
}

/// A number from `2^k` up to `2^(k + 1)` has `k` levels.
proof fn lemma_levels_between(x: nat, k: nat)
    requires
        pow2(k) <= x < pow2(k + 1),
    ensures
        levels_of(x) == k,
    decreases k,
{
    vstd::arithmetic::power2::lemma2_to64();
    lemma_pow2_unfold(k + 1);
    if k > 0 {
        lemma_pow2_unfold(k);
        lemma_pow2_pos((k - 1) as nat);
        lemma_levels_between(x / 2, (k - 1) as nat);
    }
}

/// The product of two polynomials by way of their transforms, where the
/// modulus and the length allow it.
fn by_transform<const N: u32>(a: &[ModInt<N>], b: &[ModInt<N>], len: usize) -> (r: Option<
    Vec<ModInt<N>>,
>)
    requires
        N > 1,
        len + 1 == a@.len() + b@.len(),
        forall|i: int| 0 <= i < a@.len() ==> (#[trigger] a@[i]).wf(),
        forall|i: int| 0 <= i < b@.len() ==> (#[trigger] b@[i]).wf(),
    ensures
        r is Some <==> transform_serves(N as nat, a@.len(), b@.len()),
        match r {
            Some(v) => {
                &&& v@.len() == len
                &&& forall|k: int|
                    0 <= k < len ==> (#[trigger] v@[k]).wf()
                        && v@[k].0 == conv(values(a@), values(b@), k) % (
                    N as int)
            },
            None => true,
        },
{
    let ghost md = N as int;
    if len < 2 || a.len() > len || b.len() > len {
        return None;
    }
    let table = match roots_table::<N>() {
        Some(t) => t,
        None => {
            return None;
        },
    };
    let deepest = table.len() - 1;
    let mut n: usize = 1;
    let mut levels: usize = 0;
    proof {
        vstd::arithmetic::power2::lemma2_to64();
    }
    while n < len && levels < deepest
        invariant
            n == pow2(levels as nat),
            levels <= deepest,
            deepest < 32,
            levels >= 1 ==> pow2((levels - 1) as nat) < len,
        decreases deepest - levels,
    {
        proof {
            lemma_pow2_unfold((levels + 1) as nat);
            vstd::arithmetic::power2::lemma2_to64();
            vstd::arithmetic::power2::lemma_pow2_strictly_increases((levels + 1) as nat, 32);
        }
        n = 2 * n;
        levels = levels + 1;
    }
    if n < len {
        proof {
            // more levels than 2 divides the totient
            lemma_levels_least((len - 1) as nat, levels as nat);
        }
        return None;
    }
    proof {
        lemma_pow2_unfold(levels as nat);
        lemma_levels_between((len - 1) as nat, (levels - 1) as nat);
        assert(levels == cover_levels(len as nat));
        vstd::arithmetic::power2::lemma2_to64();
        if levels < 31 {
            vstd::arithmetic::power2::lemma_pow2_strictly_increases(levels as nat, 31);
        }
    }
    let back = back_table(&table, levels);
    let count = ModInt::<N>::new(n as u32);
    let scale = count.inv();
    let w = table[levels];
    let wb = back[levels];
    proof {
        lemma_mul_mod_noop_general(n as int, scale.0 as int, md);
        lemma_small_mod(scale.0 as nat, N as nat);
        assert(scale.0 as int == inverse_of(N as nat, n as nat));
    }
    if (count * scale).val() != 1 {
        return None;
    }
    proof {
        lemma_back_root(N as nat, levels as nat);
        assert(table@[levels as int].0 == root(N as nat, levels as nat));
        assert(back@[levels as int].0 == back_root(N as nat, levels as nat));
    }
    let mut pa = padded(a, n);
    let mut pb = padded(b, n);
    let ghost va = values(pa@);
    let ghost vb = values(pb@);
    transform(&mut pa, &table, levels);
    transform(&mut pb, &table, levels);
    let ghost fa = values(pa@);
    let ghost fb = values(pb@);
    let mut pc: Vec<ModInt<N>> = Vec::new();
    let mut k: usize = 0;
    while k < n
        invariant
            N > 1,
            k <= n,
            pa@.len() == n,
            pb@.len() == n,
            pc@.len() == k,
            forall|i: int| 0 <= i < n ==> (#[trigger] pa@[i]).wf(),
            forall|i: int| 0 <= i < n ==> (#[trigger] pb@[i]).wf(),
            forall|i: int|
                0 <= i < k ==> (#[trigger] pc@[i]).wf()
                    && pc@[i].0 == (pa@[i].0 * pb@[i].0) % (N as int),
        decreases n - k,
    {
        pc.push(pa[k] * pb[k]);
        k += 1;
    }
    let ghost fc = values(pc@);
    transform(&mut pc, &back, levels);
    let mut r: Vec<ModInt<N>> = Vec::new();
    let mut m: usize = 0;
    proof {
        lemma_small_mod(1, N as nat);
        lemma_mul_mod_noop_general(n as int, scale.0 as int, md);
        lemma_small_mod(scale.0 as nat, N as nat);
        assert(eqm(pow2(levels as nat) * scale.0, 1, md));
        assert(eqm(w.0 * wb.0, 1, md));
        assert(table@[levels as int] == w);
        assert(back@[levels as int] == wb);
        assert forall|i: int, j: int| 0 <= i < n && 0 <= j < n && i + j >= n
            implies #[trigger] va[i]
            * #[trigger] vb[j] == 0 by {
            assert(pa@.len() == n);
            if i >= a@.len() {
                assert(va[i] == 0);
                assert(0 * vb[j] == 0);
            } else {
                assert(j >= b@.len());
                assert(vb[j] == 0);
                assert(va[i] * 0 == 0);
            }
        }
        assert forall|i: int| 0 <= i < n implies eqm(
            #[trigger] fa[i],
            dft(va, 0, 1, pow2(levels as nat), w.0 as int, i),
            md,
        ) by {
            vstd::arithmetic::div_mod::lemma_mod_twice(dft(va, 0, 1, n as nat, w.0 as int, i), md);
        }
        assert forall|i: int| 0 <= i < n implies eqm(
            #[trigger] fb[i],
            dft(vb, 0, 1, pow2(levels as nat), w.0 as int, i),
            md,
        ) by {
            vstd::arithmetic::div_mod::lemma_mod_twice(dft(vb, 0, 1, n as nat, w.0 as int, i), md);
        }
        assert forall|i: int| 0 <= i < n implies eqm(#[trigger] fc[i], fa[i] * fb[i], md) by {
            vstd::arithmetic::div_mod::lemma_mod_twice(fa[i] * fb[i], md);
        }
    }
    while m < len
        invariant
            N > 1,
            md == N as int,
            m <= len,
            len <= n,
            levels >= 1,
            n == pow2(levels as nat),
            pc@.len() == n,
            r@.len() == m,
            scale.wf(),
            va.len() == n,
            vb.len() == n,
            forall|i: int| 0 <= i < n ==> #[trigger] va[i] == coeff(values(a@), i),
            forall|i: int| 0 <= i < n ==> #[trigger] vb[i] == coeff(values(b@), i),
            a@.len() <= n,
            b@.len() <= n,
            forall|i: int, j: int| 0 <= i < n && 0 <= j < n && i + j >= n
                ==> #[trigger] va[i] * #[trigger] vb[j] == 0,
            eqm(w.0 * wb.0, 1, md),
            eqm(pow(w.0 as int, pow2((levels - 1) as nat)), -1, md),
            eqm(pow(wb.0 as int, pow2((levels - 1) as nat)), -1, md),
            eqm(pow2(levels as nat) * scale.0, 1, md),
            forall|i: int| 0 <= i < n
                ==> eqm(#[trigger] fa[i], dft(va, 0, 1, pow2(levels as nat), w.0 as int, i), md),
            forall|i: int| 0 <= i < n
                ==> eqm(#[trigger] fb[i], dft(vb, 0, 1, pow2(levels as nat), w.0 as int, i), md),
            forall|i: int| 0 <= i < n ==> eqm(#[trigger] fc[i], fa[i] * fb[i], md),
            forall|i: int|
                0 <= i < n ==> (#[trigger] pc@[i]).wf()
                    && pc@[i].0 == dft(fc, 0, 1, n as nat, wb.0 as int, i) % md,
            forall|i: int|
                0 <= i < m ==> (#[trigger] r@[i]).wf()
                    && r@[i].0 == conv(values(a@), values(b@), i) % md,
        decreases len - m,
    {
        let v = pc[m] * scale;
        proof {
            let d = dft(fc, 0, 1, n as nat, wb.0 as int, m as int);
            lemma_convolution(va, vb, fa, fb, fc, w.0 as int, wb.0 as int, scale.0 as int,
                levels as nat, md, m as int);
            lemma_conv_padded(values(a@), values(b@), va, vb, m as int);
            lemma_mul_mod_noop_general(d, scale.0 as int, md);
            lemma_small_mod(scale.0 as nat, N as nat);
        }
        r.push(v);
        m += 1;
    }
    Some(r)
}

/// The product of two polynomials, each coefficient as the sum that it is.
fn by_sums<const N: u32>(a: &[ModInt<N>], b: &[ModInt<N>], len: usize) -> (r: Vec<ModInt<N>>)
    requires
        N > 1,
        len + 1 == a@.len() + b@.len(),
        forall|i: int| 0 <= i < a@.len() ==> (#[trigger] a@[i]).wf(),
        forall|i: int| 0 <= i < b@.len() ==> (#[trigger] b@[i]).wf(),
    ensures
        r@.len() == len,
        forall|k: int|
            0 <= k < len ==> (#[trigger] r@[k]).wf()
                && r@[k].0 == conv(values(a@), values(b@), k) % (N as int),
{
    let ghost md = N as int;
    let ghost va = values(a@);
    let ghost vb = values(b@);
    let mut r: Vec<ModInt<N>> = Vec::new();
    let mut k: usize = 0;
    while k < len
        invariant
            N > 1,
            md == N as int,
            k <= len,
            va == values(a@),
            vb == values(b@),
            r@.len() == k,
            forall|i: int| 0 <= i < a@.len() ==> (#[trigger] a@[i]).wf(),
            forall|i: int| 0 <= i < b@.len() ==> (#[trigger] b@[i]).wf(),
            forall|j: int| 0 <= j < k
                ==> (#[trigger] r@[j]).wf() && r@[j].0 == conv(va, vb, j) % md,
        decreases len - k,
    {
        let mut acc = ModInt::<N>::new(0);
        let mut i: usize = 0;
        proof {
            lemma_small_mod(0, N as nat);
        }
        while i < a.len()
            invariant
                N > 1,
                md == N as int,
                i <= a@.len(),
                va == values(a@),
                vb == values(b@),
                acc.wf(),
                acc.0 == sum(pairs(va, vb, k as int), i as nat) % md,
                forall|j: int| 0 <= j < a@.len() ==> (#[trigger] a@[j]).wf(),
                forall|j: int| 0 <= j < b@.len() ==> (#[trigger] b@[j]).wf(),
            decreases a@.len() - i,
        {
            let ghost before = sum(pairs(va, vb, k as int), i as nat);
            let ghost here = pairs(va, vb, k as int)(i as int);
            if i <= k && k - i < b.len() {
                let p = a[i] * b[k - i];
                proof {
                    assert(here == a@[i as int].0 * b@[k - i].0);
                    vstd::arithmetic::div_mod::lemma_mod_twice(here, md);
                    lemma_add_mod_noop(before, here, md);
                    vstd::arithmetic::div_mod::lemma_mod_twice(before, md);
                    lemma_small_mod(acc.0 as nat, N as nat);
                    lemma_small_mod(p.0 as nat, N as nat);
                }
                acc = acc + p;
            } else {
                proof {
                    assert(coeff(vb, k - i) == 0);
                    assert(coeff(va, i as int) * 0 == 0);
                }
            }
            i += 1;
        }
        r.push(acc);
        k += 1;
    }
    r
}

/// The product of the polynomials `a` and `b`: the coefficient at `k` is
/// the sum of the products `a[i] * b[j]` with `i + j == k`, modulo `N`.
pub fn convolution<const N: u32>(a: &[ModInt<N>], b: &[ModInt<N>]) -> (r: Vec<ModInt<N>>)
    requires
        N > 1,
        1 <= a@.len() + b@.len() <= usize::MAX + 1,
        forall|i: int| 0 <= i < a@.len() ==> (#[trigger] a@[i]).wf(),
        forall|i: int| 0 <= i < b@.len() ==> (#[trigger] b@[i]).wf(),
    ensures
        r@.len() == a@.len() + b@.len() - 1,
        forall|k: int|
            0 <= k < r@.len() ==> (#[trigger] r@[k]).wf()
                && r@[k].0 == conv(values(a@), values(b@), k) % (
            N as int),
{
    let len = if a.len() == 0 {
        b.len() - 1
    } else {
        a.len() - 1 + b.len()
    };
    match by_transform(a, b, len) {
        Some(r) => r,
        None => by_sums(a, b, len),
    }
}

/// The least number that gives the roots gives the roots.
pub proof fn lemma_seed(n: nat, s: nat)
    requires
        seed_from(n, s) < n,
    ensures
        is_seed(n, seed_from(n, s)),
    decreases n - s,
{
    if s < n && !is_seed(n, s) {
        lemma_seed(n, s + 1);
    }
}

/// The power of the root of a level to half the length of the level leaves
/// the rest -1.
pub proof fn lemma_root_half(n: nat, j: nat)
    requires
        n > 1,
        has_roots(n),
        1 <= j <= depth(n),
    ensures
        eqm(pow(root(n, j), pow2((j - 1) as nat)), -1, n as int),
    decreases depth(n) - j,
{
    let md = n as int;
    if j >= depth(n) {
        lemma_seed(n, 2);
    } else {
        lemma_root_half(n, j + 1);
        let above = root(n, j + 1);
        let e = pow2((j - 1) as nat);
        lemma_pow2_unfold(j);
        vstd::arithmetic::div_mod::lemma_mod_twice(above * above, md);
        lemma_eqm_pow(root(n, j), above * above, e, md);
        lemma_pow_twice(above, e);
    }
}

/// A number is its odd part times the power of 2 that divides it.
pub proof fn lemma_twos(x: nat)
    ensures
        x == odd_part(x) * pow2(twos(x)),
    decreases x,
{
    vstd::arithmetic::power2::lemma2_to64();
    if x == 0 || x % 2 == 1 {
        assert(x * 1 == x);
    } else {
        lemma_twos(x / 2);
        lemma_pow2_unfold(twos(x));
        assert(odd_part(x / 2) * (2 * pow2(twos(x / 2))) == 2 * (odd_part(x / 2)
            * pow2(twos(x / 2))))
            by (nonlinear_arith);
    }
}

/// The power of the root of a level to the totient leaves the rest 1.
pub proof fn lemma_root_cycle(n: nat, j: nat)
    requires
        n > 1,
        has_roots(n),
        1 <= j <= depth(n),
    ensures
        eqm(pow(root(n, j), phi_spec(n)), 1, n as int),
        phi_spec(n) % 2 == 0,
        phi_spec(n) >= 2,
{
    let md = n as int;
    let r = root(n, j);
    let h = pow2((j - 1) as nat);
    let phi = phi_spec(n);
    lemma_root_half(n, j);
    lemma_twos(phi);
    lemma_pow2_unfold(j);
    lemma_pow2_pos((j - 1) as nat);
    // the totient is a multiple of the length of the level
    let rest = pow2((depth(n) - j) as nat);
    vstd::arithmetic::power2::lemma_pow2_adds(j, (depth(n) - j) as nat);
    let q = odd_part(phi) * rest;
    assert(phi == (2 * h) * q) by (nonlinear_arith)
        requires
            phi == odd_part(phi) * pow2(depth(n)),
            pow2(depth(n)) == pow2(j) * rest,
            pow2(j) == 2 * h,
            q == odd_part(phi) * rest,
    ;
    assert((2 * h) * q == h * (2 * q)) by (nonlinear_arith);
    lemma_pow_multiplies(r, h, 2 * q);
    lemma_eqm_pow(pow(r, h), -1, 2 * q, md);
    lemma_pow_twice(-1, q);
    assert((-1) * (-1) == 1) by (nonlinear_arith);
    lemma_unit_pow(q);
    lemma_phi_positive(n);
    assert(twos(phi) >= 1);
}

/// The root of a level for the way back is the inverse of the root of that
/// level, and its power to half the length of the level leaves the rest -1.
pub proof fn lemma_back_root(n: nat, j: nat)
    requires
        n > 1,
        has_roots(n),
        1 <= j <= depth(n),
    ensures
        eqm(root(n, j) * back_root(n, j), 1, n as int),
        eqm(pow(back_root(n, j), pow2((j - 1) as nat)), -1, n as int),
{
    let md = n as int;
    let r = root(n, j);
    let e = (phi_spec(n) - 1) as nat;
    let h = pow2((j - 1) as nat);
    lemma_root_cycle(n, j);
    lemma_root_half(n, j);
    vstd::arithmetic::div_mod::lemma_mod_twice(pow(r, e), md);
    lemma_eqm_mul(r, r, back_root(n, j), pow(r, e), md);
    lemma_pow_adds(r, 1, e);
    lemma_pow1(r);
    lemma_eqm_pow(back_root(n, j), pow(r, e), h, md);
    lemma_pow_multiplies(r, e, h);
    lemma_pow_multiplies(r, h, e);
    assert(e * h == h * e) by (nonlinear_arith);
    lemma_eqm_pow(pow(r, h), -1, e, md);
    lemma_minus_one_pow(e);
}

/// The way there and back gives what there was: where `mid` is what `fft`
/// makes of `a`, and `back` what `ifft` makes of `mid`, `back` holds the
/// residues of `a`, as long as the length has an inverse modulo `n`.
pub proof fn lemma_round_trip(n: nat, a: Seq<int>, mid: Seq<int>, back: Seq<int>, m: int)
    requires
        n > 1,
        transformable(n, a.len()),
        eqm(a.len() * inverse_of(n, a.len()), 1, n as int),
        0 <= m < a.len(),
        forall|k: int|
            0 <= k < a.len() ==> #[trigger] mid[k] == dft(a, 0, 1, a.len(), root(n,
                levels_of(a.len())), k) % (
            n as int),
        back[m] == (dft(mid, 0, 1, a.len(), back_root(n, levels_of(a.len())), m) * inverse_of(n,
            a.len())) % (
        n as int),
    ensures
        back[m] == a[m] % (n as int),
{
    let md = n as int;
    let len = a.len();
    let levels = levels_of(len);
    let w = root(n, levels);
    let wb = back_root(n, levels);
    let inv = inverse_of(n, len);
    let d = dft(mid, 0, 1, len, wb, m);
    if levels == 0 {
        vstd::arithmetic::power2::lemma2_to64();
        lemma_dft_one(a, w);
        lemma_dft_one(mid, wb);
        vstd::arithmetic::div_mod::lemma_mod_twice(a[0], md);
        lemma_eqm_mul(d, a[0], inv, inv, md);
        assert(a[0] * inv == a[0] * (1 * inv)) by (nonlinear_arith);
        lemma_eqm_mul(a[0], a[0], 1 * inv, 1, md);
        assert(a[0] * 1 == a[0]);
    } else {
        assert(len > 1) by {
            vstd::arithmetic::power2::lemma2_to64();
        }
        lemma_root_half(n, levels);
        lemma_back_root(n, levels);
        assert forall|k: int| 0 <= k < pow2(levels) implies eqm(
            #[trigger] mid[k],
            dft(a, 0, 1, pow2(levels), w, k),
            md,
        ) by {
            vstd::arithmetic::div_mod::lemma_mod_twice(dft(a, 0, 1, len, w, k), md);
        }
        lemma_inversion(a, mid, w, wb, levels, md, m);
        lemma_eqm_mul(d, len * a[m], inv, inv, md);
        assert((len * a[m]) * inv == a[m] * (len * inv)) by (nonlinear_arith);
        lemma_eqm_mul(a[m], a[m], len * inv, 1, md);
        assert(a[m] * 1 == a[m]);
    }
}

/// `inverse_of` gives the inverse of a number that has no factor in common
/// with `n`.
pub proof fn lemma_inverse_of(n: nat, x: nat)
    requires
        n >= 1,
        crate::euler::coprime(x % n, n),
    ensures
        eqm(x * inverse_of(n, x), 1, n as int),
{
    let md = n as int;
    let a = x % n;
    let power = pow(a as int, (phi_spec(n) - 1) as nat);
    crate::euler::lemma_inverse_power(a, n);
    vstd::arithmetic::div_mod::lemma_mod_twice(x as int, md);
    vstd::arithmetic::div_mod::lemma_mod_twice(power, md);
    lemma_eqm_mul(x as int, a as int, inverse_of(n, x), power, md);
}

/// The way there and back gives what there was, where the length has no
/// factor in common with `n`: where `mid` is what `fft` makes of `a`, and
/// `back` what `ifft` makes of `mid`, `back` holds the residues of `a`.
pub proof fn lemma_there_and_back(n: nat, a: Seq<int>, mid: Seq<int>, back: Seq<int>, m: int)
    requires
        n > 1,
        transformable(n, a.len()),
        crate::euler::coprime(a.len() % n, n),
        0 <= m < a.len(),
        forall|k: int|
            0 <= k < a.len() ==> #[trigger] mid[k] == dft(
                a,
                0,
                1,
                a.len(),
                root(n, levels_of(a.len())),
                k,
            ) % (n as int),
        back[m] == (dft(mid, 0, 1, a.len(), back_root(n, levels_of(a.len())), m) * inverse_of(
            n,
            a.len(),
        )) % (n as int),
    ensures
        back[m] == a[m] % (n as int),
{
    lemma_inverse_of(n, a.len());
    lemma_round_trip(n, a, mid, back, m);
}

} // verus!
