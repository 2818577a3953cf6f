//! Euler's theorem: a number that has no factor in common with `n`, raised
//! to the totient of `n`, leaves the rest 1 when divided by `n`.

use crate::fft::{eqm, lemma_eqm_add, lemma_eqm_mul, lemma_eqm_pow, lemma_unit_pow};
use crate::modint::{lemma_divide, phi_spec, power_part, share, strip, totient_from};
use crate::polynomial::{lemma_geo_one, powers};
use crate::series::sum;
use vstd::arithmetic::div_mod::{
    lemma_fundamental_div_mod, lemma_mod_multiples_basic, lemma_small_mod,
};
use vstd::arithmetic::power::{lemma_pow0, lemma_pow1, lemma_pow_adds, lemma_pow_multiplies, pow};
use vstd::prelude::*;

verus! {

/// Whether `a` and `n` have no factor in common but 1.
pub open spec fn coprime(a: nat, n: nat) -> bool {
    forall|d: nat| d > 1 ==> !(#[trigger] (a % d) == 0 && n % d == 0)
}

/// `a * u + n * v`.
pub open spec fn combo(a: int, u: int, n: int, v: int) -> int {
    a * u + n * v
}

/// Whether 1 is a sum of a multiple of `a` and a multiple of `n`: then `a`
/// has an inverse modulo `n`.
pub open spec fn unit(a: int, n: int) -> bool {
    exists|u: int, v: int| #[trigger] combo(a, u, n, v) == 1
}

/// Whether `p` is a prime.
pub open spec fn prime(p: nat) -> bool {
    p >= 2 && forall|d: nat| 2 <= d < p ==> #[trigger] (p % d) != 0
}

/// What divides two numbers divides the sums of their multiples.
proof fn lemma_divides_combo(d: int, x: int, y: int, s: int, t: int)
    requires
        d > 0,
        x % d == 0,
        y % d == 0,
    ensures
        (x * s + y * t) % d == 0,
{
    lemma_fundamental_div_mod(x, d);
    lemma_fundamental_div_mod(y, d);
    let k = (x / d) * s + (y / d) * t;
    assert(x * s + y * t == k * d) by (nonlinear_arith)
        requires
            x == d * (x / d),
            y == d * (y / d),
            k == (x / d) * s + (y / d) * t,
    ;
    lemma_mod_multiples_basic(k, d);
}

/// A multiple of `d` leaves no rest.
proof fn lemma_multiple(d: int, k: int)
    requires
        d > 0,
    ensures
        (d * k) % d == 0,
        (k * d) % d == 0,
{
    lemma_mod_multiples_basic(k, d);
    assert(d * k == k * d) by (nonlinear_arith);
}

/// Numbers that leave the same rest differ by a multiple, and the other way
/// round.
proof fn lemma_eqm_diff(a: int, b: int, md: int)
    requires
        md > 0,
    ensures
        eqm(a, b, md) <==> (a - b) % md == 0,
{
    vstd::arithmetic::div_mod::lemma_mod_equivalence(a, b, md);
}

/// Of two numbers with no common factor, 1 is a sum of multiples.
pub proof fn lemma_bezout(a: nat, b: nat)
    requires
        coprime(a, b),
    ensures
        unit(a as int, b as int),
    decreases b,
{
    if b == 0 {
        if a != 1 {
            if a == 0 {
                assert(a % 2 == 0 && b % 2 == 0);
            } else {
                assert(a % a == 0) by {
                    vstd::arithmetic::div_mod::lemma_mod_self_0(a as int);
                }
                assert(b % a == 0);
            }
            assert(false);
        }
        assert(combo(a as int, 1, b as int, 0) == 1);
    } else {
        let r = a % b;
        let q = a / b;
        lemma_fundamental_div_mod(a as int, b as int);
        assert forall|d: nat| d > 1 implies !(#[trigger] (b % d) == 0 && r % d == 0) by {
            if b % d == 0 && r % d == 0 {
                lemma_divides_combo(d as int, b as int, r as int, q as int, 1);
                assert(b * q + r * 1 == a) by (nonlinear_arith)
                    requires
                        a == b * q + r,
                ;
                assert(a % d == 0);
            }
        }
        lemma_bezout(b, r);
        let (u, v) = choose|u: int, v: int| #[trigger] combo(b as int, u, r as int, v) == 1;
        assert(combo(a as int, v, b as int, u - q * v) == 1) by (nonlinear_arith)
            requires
                b * u + r * v == 1,
                a == b * q + r,
        ;
    }
}

/// A number that has an inverse modulo `n` has one modulo every factor of
/// `n`.
proof fn lemma_unit_factor(a: int, n: int, m: int, c: int)
    requires
        unit(a, n),
        n == m * c,
    ensures
        unit(a, m),
{
    let (u, v) = choose|u: int, v: int| #[trigger] combo(a, u, n, v) == 1;
    assert(combo(a, u, m, c * v) == 1) by (nonlinear_arith)
        requires
            a * u + n * v == 1,
            n == m * c,
    ;
}

/// Numbers that have an inverse modulo `m` each have a product that has
/// one.
proof fn lemma_unit_product(a: int, b: int, m: int)
    requires
        unit(a, m),
        unit(b, m),
    ensures
        unit(a * b, m),
{
    let (u, v) = choose|u: int, v: int| #[trigger] combo(a, u, m, v) == 1;
    let (s, t) = choose|s: int, t: int| #[trigger] combo(b, s, m, t) == 1;
    let x = a * u;
    let y = m * v;
    let z = b * s;
    let w = m * t;
    assert(x * z + x * w + y * z + y * w == 1) by (nonlinear_arith)
        requires
            x + y == 1,
            z + w == 1,
    ;
    assert(x * z == (a * b) * (u * s)) by (nonlinear_arith)
        requires
            x == a * u,
            z == b * s,
    ;
    assert(x * w == m * (x * t)) by (nonlinear_arith)
        requires
            w == m * t,
    ;
    assert(y * z == m * (v * z)) by (nonlinear_arith)
        requires
            y == m * v,
    ;
    assert(y * w == m * (v * w)) by (nonlinear_arith)
        requires
            y == m * v,
    ;
    let k = x * t + v * z + v * w;
    assert(m * k == m * (x * t) + m * (v * z) + m * (v * w)) by (nonlinear_arith)
        requires
            k == x * t + v * z + v * w,
    ;
    assert(combo(a * b, u * s, m, k) == 1);
}

/// Where `a` has an inverse modulo `m` and `a * x` is a multiple of `m`, so
/// is `x`.
proof fn lemma_unit_cancel(a: int, x: int, m: int)
    requires
        m > 0,
        unit(a, m),
        (a * x) % m == 0,
    ensures
        x % m == 0,
{
    let (u, v) = choose|u: int, v: int| #[trigger] combo(a, u, m, v) == 1;
    lemma_multiple(m, 1);
    assert(m % m == 0) by {
        assert(m * 1 == m);
    }
    lemma_divides_combo(m, a * x, m, u, v * x);
    assert((a * x) * u + m * (v * x) == x) by (nonlinear_arith)
        requires
            a * u + m * v == 1,
    ;
}

/// The product of the elements of `s`.
pub open spec fn product(s: Seq<int>) -> int
    decreases s.len(),
{
    if s.len() == 0 {
        1
    } else {
        product(s.drop_last()) * s.last()
    }
}

/// A product is one of its factors times the product of the others.
proof fn lemma_product_remove(s: Seq<int>, j: int)
    requires
        0 <= j < s.len(),
    ensures
        product(s) == s[j] * product(s.remove(j)),
    decreases s.len(),
{
    if j == s.len() - 1 {
        assert(s.remove(j) =~= s.drop_last());
        assert(product(s.drop_last()) * s.last() == s.last() * product(s.drop_last()))
            by (nonlinear_arith);
    } else {
        lemma_product_remove(s.drop_last(), j);
        assert(s.remove(j).drop_last() =~= s.drop_last().remove(j));
        assert(s.remove(j).last() == s.last());
        assert(s.drop_last()[j] == s[j]);
        let rest = product(s.drop_last().remove(j));
        assert((s[j] * rest) * s.last() == s[j] * (rest * s.last())) by (nonlinear_arith);
    }
}

/// The product does not depend on the order of the factors.
proof fn lemma_product_perm(s: Seq<int>, t: Seq<int>)
    requires
        s.to_multiset() == t.to_multiset(),
    ensures
        product(s) == product(t),
    decreases s.len(),
{
    broadcast use vstd::seq_lib::group_to_multiset_ensures;

    s.to_multiset_ensures();
    t.to_multiset_ensures();
    if s.len() == 0 {
        assert(t.len() == 0);
    } else {
        let x = s.last();
        assert(s.contains(x));
        assert(t.to_multiset().count(x) > 0);
        assert(t.contains(x));
        let j = choose|j: int| 0 <= j < t.len() && t[j] == x;
        vstd::seq_lib::to_multiset_remove(s, s.len() - 1);
        vstd::seq_lib::to_multiset_remove(t, j);
        assert(s.remove(s.len() - 1) =~= s.drop_last());
        lemma_product_perm(s.drop_last(), t.remove(j));
        lemma_product_remove(t, j);
        assert(product(s.drop_last()) * x == x * product(s.drop_last())) by (nonlinear_arith);
    }
}

/// Products of factors that leave the same rests leave the same rest.
proof fn lemma_product_eqm(s: Seq<int>, t: Seq<int>, md: int)
    requires
        md > 0,
        s.len() == t.len(),
        forall|i: int| 0 <= i < s.len() ==> eqm(#[trigger] s[i], t[i], md),
    ensures
        eqm(product(s), product(t), md),
    decreases s.len(),
{
    if s.len() > 0 {
        lemma_product_eqm(s.drop_last(), t.drop_last(), md);
        assert(eqm(s[s.len() - 1], t[s.len() - 1], md));
        lemma_eqm_mul(product(s.drop_last()), product(t.drop_last()), s.last(), t.last(), md);
    }
}

/// The product of products of two factors is the product of the two
/// products.
proof fn lemma_product_mul(s: Seq<int>, t: Seq<int>, both: Seq<int>)
    requires
        s.len() == t.len(),
        both.len() == s.len(),
        forall|i: int| 0 <= i < s.len() ==> #[trigger] both[i] == s[i] * t[i],
    ensures
        product(both) == product(s) * product(t),
    decreases s.len(),
{
    if s.len() > 0 {
        lemma_product_mul(s.drop_last(), t.drop_last(), both.drop_last());
        let a = product(s.drop_last());
        let b = product(t.drop_last());
        assert(both.last() == s.last() * t.last());
        assert((a * b) * (s.last() * t.last()) == (a * s.last()) * (b * t.last()))
            by (nonlinear_arith);
    }
}

/// A factor that all elements have comes out of the product as a power.
proof fn lemma_product_scale(s: Seq<int>, a: int, t: Seq<int>)
    requires
        t.len() == s.len(),
        forall|i: int| 0 <= i < s.len() ==> #[trigger] t[i] == a * s[i],
    ensures
        product(t) == pow(a, s.len()) * product(s),
    decreases s.len(),
{
    if s.len() > 0 {
        lemma_product_scale(s.drop_last(), a, t.drop_last());
        let n = (s.len() - 1) as nat;
        lemma_pow_adds(a, n, 1);
        lemma_pow1(a);
        assert(t.last() == a * s.last());
        assert((pow(a, n) * product(s.drop_last())) * (a * s.last()) == (pow(a, n) * a) * (product(
            s.drop_last(),
        ) * s.last())) by (nonlinear_arith);
    } else {
        lemma_pow0(a);
    }
}

/// A product of ones is 1.
proof fn lemma_product_ones(s: Seq<int>)
    requires
        forall|i: int| 0 <= i < s.len() ==> #[trigger] s[i] == 1,
    ensures
        product(s) == 1,
    decreases s.len(),
{
    if s.len() > 0 {
        lemma_product_ones(s.drop_last());
    }
}

/// Whether `x * u` is 1 and a multiple of `n`.
pub open spec fn inverts(x: int, u: int, n: int) -> bool {
    exists|v: int| #[trigger] combo(x, u, n, v) == 1
}

/// An inverse of `x` modulo `n`, where `x` has one.
pub open spec fn inverse(x: int, n: int) -> int {
    choose|u: int| #[trigger] inverts(x, u, n)
}

/// The inverse is one, and has an inverse itself.
proof fn lemma_inverse(x: int, n: int)
    requires
        n > 0,
        unit(x, n),
    ensures
        eqm(x * inverse(x, n), 1, n),
        unit(inverse(x, n), n),
{
    let (u0, v0) = choose|u: int, v: int| #[trigger] combo(x, u, n, v) == 1;
    assert(inverts(x, u0, n));
    let u = inverse(x, n);
    assert(inverts(x, u, n));
    let v = choose|v: int| #[trigger] combo(x, u, n, v) == 1;
    lemma_multiple(n, -v);
    assert(x * u - 1 == n * (-v)) by (nonlinear_arith)
        requires
            x * u + n * v == 1,
    ;
    lemma_eqm_diff(x * u, 1, n);
    assert(combo(u, x, n, v) == 1) by (nonlinear_arith)
        requires
            x * u + n * v == 1,
    ;
}

/// A multiple of `p` between `-p` and `p` is 0.
proof fn lemma_small_multiple(d: int, p: int)
    requires
        p > 0,
        -p < d < p,
        d % p == 0,
    ensures
        d == 0,
{
    lemma_fundamental_div_mod(d, p);
    let q = d / p;
    assert(q == 0) by (nonlinear_arith)
        requires
            d == p * q,
            -p < d < p,
            p > 0,
    ;
}

/// Every number from 1 up to a prime has an inverse modulo the prime.
proof fn lemma_prime_units(p: nat, x: nat)
    requires
        prime(p),
        1 <= x < p,
    ensures
        unit(x as int, p as int),
{
    assert forall|d: nat| d > 1 implies !(#[trigger] (x % d) == 0 && p % d == 0) by {
        if x % d == 0 && p % d == 0 {
            if d > x {
                lemma_small_mod(x, d);
            }
            assert(2 <= d < p);
        }
    }
    lemma_bezout(x, p);
}

/// A number with an inverse modulo `p` takes the numbers from 1 up to `p`
/// to numbers that are no multiples of `p`, and different numbers to
/// numbers that leave different rests.
proof fn lemma_times_unit(a: int, p: int, x: int, y: int)
    requires
        p > 1,
        unit(a, p),
        1 <= x < p,
        1 <= y < p,
    ensures
        1 <= (a * x) % p < p,
        (a * x) % p == (a * y) % p ==> x == y,
{
    vstd::arithmetic::div_mod::lemma_mod_bound(a * x, p);
    if (a * x) % p == 0 {
        lemma_unit_cancel(a, x, p);
        lemma_small_mod(x as nat, p as nat);
    }
    if (a * x) % p == (a * y) % p {
        lemma_eqm_diff(a * x, a * y, p);
        assert(a * x - a * y == a * (x - y)) by (nonlinear_arith);
        lemma_unit_cancel(a, x - y, p);
        lemma_small_multiple(x - y, p);
    }
}

/// Fermat's theorem: a number with an inverse modulo a prime `p`, raised to
/// `p - 1`, leaves the rest 1.
pub proof fn lemma_fermat(a: int, p: nat)
    requires
        prime(p),
        unit(a, p as int),
    ensures
        eqm(pow(a, (p - 1) as nat), 1, p as int),
{
    broadcast use vstd::seq_lib::group_to_multiset_ensures;

    let md = p as int;
    let m = (p - 1) as nat;
    let all = Seq::new(m, |k: int| k + 1);
    let scaled = Seq::new(m, |k: int| a * (k + 1));
    let rests = Seq::new(m, |k: int| (a * (k + 1)) % md);
    let back = Seq::new(m, |k: int| inverse(k + 1, md));
    let ones = Seq::new(m, |k: int| (k + 1) * inverse(k + 1, md));
    let u = inverse(a, md);
    lemma_inverse(a, md);
    // the rests are the numbers from 1 up to `p`, in another order
    assert(all.no_duplicates());
    assert(rests.no_duplicates()) by {
        assert forall|i: int, j: int|
            0 <= i < rests.len() && 0 <= j < rests.len() && i != j implies rests[i]
            != rests[j] by {
            lemma_times_unit(a, md, i + 1, j + 1);
        }
    }
    assert forall|y: int| rests.contains(y) <==> all.contains(y) by {
        if rests.contains(y) {
            let k = choose|k: int| 0 <= k < rests.len() && rests[k] == y;
            lemma_times_unit(a, md, k + 1, k + 1);
            assert(all[y - 1] == y);
        }
        if all.contains(y) {
            let k = choose|k: int| 0 <= k < all.len() && all[k] == y;
            assert(1 <= y < p);
            lemma_times_unit(u, md, y, y);
            let x = (u * y) % md;
            // `a * x` leaves the rest `y`
            vstd::arithmetic::div_mod::lemma_mod_twice(u * y, md);
            lemma_eqm_mul(a, a, x, u * y, md);
            assert(a * (u * y) == (a * u) * y) by (nonlinear_arith);
            lemma_eqm_mul(a * u, 1, y, y, md);
            lemma_small_mod(y as nat, p);
            assert(1 * y == y);
            assert(rests[x - 1] == (a * x) % md);
            assert(rests[x - 1] == y);
        }
    }
    all.lemma_multiset_has_no_duplicates();
    rests.lemma_multiset_has_no_duplicates();
    assert forall|y: int| rests.to_multiset().count(y) == all.to_multiset().count(y) by {
        all.to_multiset_ensures();
        rests.to_multiset_ensures();
        assert(rests.contains(y) <==> all.contains(y));
    }
    assert(rests.to_multiset() =~= all.to_multiset());
    lemma_product_perm(rests, all);
    // the product of the rests is that of the numbers, times the power
    assert forall|k: int| 0 <= k < rests.len() implies eqm(#[trigger] rests[k], scaled[k], md) by {
        vstd::arithmetic::div_mod::lemma_mod_twice(a * (k + 1), md);
    }
    lemma_product_eqm(rests, scaled, md);
    lemma_product_scale(all, a, scaled);
    // the product of the numbers has an inverse
    assert forall|k: int| 0 <= k < all.len() implies eqm(#[trigger] ones[k], 1, md) by {
        lemma_prime_units(p, (k + 1) as nat);
        lemma_inverse(k + 1, md);
    }
    lemma_product_mul(all, back, ones);
    let unity = Seq::new(m, |k: int| 1int);
    lemma_product_eqm(ones, unity, md);
    lemma_product_ones(unity);
    let e = pow(a, m);
    let big = product(all);
    let w = product(back);
    // e == e * 1 ~ e * (big * w) == (e * big) * w ~ big * w ~ 1
    assert(eqm(big, e * big, md));
    assert(eqm(big * w, 1, md));
    lemma_eqm_mul(e, e, 1, big * w, md);
    assert(e * (big * w) == (e * big) * w) by (nonlinear_arith);
    lemma_eqm_mul(e * big, big, w, w, md);
    assert(e * 1 == e);
}

/// `x - 1` times the sum of the first `n` powers of `x` is the power of `x`
/// to `n`, less 1.
proof fn lemma_geo_identity(x: int, n: nat)
    ensures
        (x - 1) * sum(powers(x), n) == pow(x, n) - 1,
    decreases n,
{
    if n == 0 {
        lemma_pow0(x);
        assert((x - 1) * 0 == 0);
    } else {
        lemma_geo_identity(x, (n - 1) as nat);
        let g = sum(powers(x), (n - 1) as nat);
        let last = pow(x, (n - 1) as nat);
        lemma_pow_adds(x, 1, (n - 1) as nat);
        lemma_pow1(x);
        assert(powers(x)(n - 1) == last);
        assert((x - 1) * (g + last) == (x - 1) * g + x * last - last) by (nonlinear_arith);
    }
}

/// Where `x` leaves the rest 1 modulo a multiple `q` of `p`, the power of
/// `x` to `p` leaves the rest 1 modulo `q * p`.
proof fn lemma_lift(x: int, q: nat, p: nat)
    requires
        p >= 2,
        q >= 1,
        q % p == 0,
        eqm(x, 1, q as int),
    ensures
        eqm(pow(x, p), 1, (q * p) as int),
{
    let g = sum(powers(x), p);
    lemma_eqm_diff(x, 1, q as int);
    lemma_fundamental_div_mod(x - 1, q as int);
    lemma_fundamental_div_mod(q as int, p as int);
    let s = (x - 1) / (q as int);
    let c = (q as int) / (p as int);
    assert(x - 1 == p * (c * s)) by (nonlinear_arith)
        requires
            x - 1 == q * s,
            q == p * c,
    ;
    lemma_multiple(p as int, c * s);
    lemma_eqm_diff(x, 1, p as int);
    lemma_geo_one(x, p, p as int);
    lemma_multiple(p as int, 1);
    assert(p * 1 == p);
    assert(g % (p as int) == 0);
    lemma_fundamental_div_mod(g, p as int);
    let t = g / (p as int);
    lemma_geo_identity(x, p);
    assert(q * p > 0) by (nonlinear_arith)
        requires
            q >= 1,
            p >= 2,
    ;
    assert(pow(x, p) - 1 == (q * p) * (s * t)) by (nonlinear_arith)
        requires
            pow(x, p) - 1 == (x - 1) * g,
            x - 1 == q * s,
            g == p * t,
    ;
    lemma_multiple((q * p) as int, s * t);
    lemma_eqm_diff(pow(x, p), 1, (q * p) as int);
}

/// The greatest power of `p` in `n`, times what is left of `n` without it,
/// is `n`; what is left is no multiple of `p`.
proof fn lemma_split_power(n: nat, p: nat)
    requires
        n >= 1,
        p >= 2,
    ensures
        power_part(n, p) * strip(n, p) == n,
        strip(n, p) % p != 0,
        strip(n, p) >= 1,
        power_part(n, p) >= 1,
    decreases n,
{
    if n % p == 0 {
        lemma_divide(n, p);
        lemma_split_power(n / p, p);
        assert((p * power_part(n / p, p)) * strip(n / p, p) == p * (power_part(n / p, p) * strip(
            n / p,
            p,
        ))) by (nonlinear_arith);
        assert(p * power_part(n / p, p) >= 1) by (nonlinear_arith)
            requires
                p >= 2,
                power_part(n / p, p) >= 1,
        ;
    } else {
        assert(1 * n == n);
    }
}

/// What divides a factor of `n` divides `n`.
proof fn lemma_divides_trans(d: nat, m: nat, n: nat)
    requires
        d >= 1,
        m >= 1,
        m % d == 0,
        n % m == 0,
    ensures
        n % d == 0,
{
    lemma_divides_combo(d as int, m as int, m as int, (n / m) as int, 0);
    lemma_fundamental_div_mod(n as int, m as int);
    assert(m * (n / m) + m * 0 == n) by (nonlinear_arith)
        requires
            n == m * (n / m),
    ;
}

/// A factor of a positive number is not above it.
proof fn lemma_divisor_bound(d: nat, n: nat)
    requires
        d >= 1,
        n >= 1,
        n % d == 0,
    ensures
        d <= n,
{
    if d > n {
        lemma_small_mod(n, d);
    }
}

/// Having an inverse goes both ways.
proof fn lemma_unit_sym(a: int, n: int)
    requires
        unit(a, n),
    ensures
        unit(n, a),
{
    let (u, v) = choose|u: int, v: int| #[trigger] combo(a, u, n, v) == 1;
    assert(combo(n, v, a, u) == 1);
}

/// Where `p` has an inverse modulo `m`, so has every power of `p`.
proof fn lemma_unit_power_part(n: nat, p: nat, m: nat)
    requires
        unit(p as int, m as int),
    ensures
        unit(power_part(n, p) as int, m as int),
    decreases n,
{
    if p >= 2 && n > 0 && n % p == 0 {
        lemma_divide(n, p);
        lemma_unit_power_part(n / p, p, m);
        lemma_unit_product(p as int, power_part(n / p, p) as int, m as int);
    } else {
        assert(combo(1, 1, m as int, 0) == 1);
    }
}

/// A number that leaves the rest 1 modulo each of two numbers, of which one
/// has an inverse modulo the other, leaves the rest 1 modulo their product.
proof fn lemma_both(x: int, m1: nat, m2: nat)
    requires
        m1 >= 1,
        m2 >= 1,
        unit(m1 as int, m2 as int),
        eqm(x, 1, m1 as int),
        eqm(x, 1, m2 as int),
    ensures
        eqm(x, 1, (m1 * m2) as int),
{
    let (u, v) = choose|u: int, v: int| #[trigger] combo(m1 as int, u, m2 as int, v) == 1;
    lemma_eqm_diff(x, 1, m1 as int);
    lemma_eqm_diff(x, 1, m2 as int);
    lemma_fundamental_div_mod(x - 1, m1 as int);
    lemma_fundamental_div_mod(x - 1, m2 as int);
    let d = x - 1;
    let s = d / (m1 as int);
    let t = d / (m2 as int);
    assert(m1 * m2 > 0) by (nonlinear_arith)
        requires
            m1 >= 1,
            m2 >= 1,
    ;
    let k = t * u + s * v;
    assert(d == d * (m1 * u) + d * (m2 * v)) by (nonlinear_arith)
        requires
            m1 * u + m2 * v == 1,
    ;
    assert(d * (m1 * u) == (m1 * m2) * (t * u)) by (nonlinear_arith)
        requires
            d == m2 * t,
    ;
    assert(d * (m2 * v) == (m1 * m2) * (s * v)) by (nonlinear_arith)
        requires
            d == m1 * s,
    ;
    assert((m1 * m2) * (t * u) + (m1 * m2) * (s * v) == (m1 * m2) * k) by (nonlinear_arith)
        requires
            k == t * u + s * v,
    ;
    lemma_multiple((m1 * m2) as int, k);
    lemma_eqm_diff(x, 1, (m1 * m2) as int);
}

/// A number with an inverse modulo a prime `p`, raised to the share of `p`
/// in the totient of a multiple `n` of `p`, leaves the rest 1 modulo the
/// greatest power of `p` in `n`.
proof fn lemma_prime_power(a: int, n: nat, p: nat)
    requires
        prime(p),
        n >= 1,
        n % p == 0,
        unit(a, p as int),
    ensures
        eqm(pow(a, share(n, p)), 1, power_part(n, p) as int),
        power_part(n, p) % p == 0,
        power_part(n, p) >= 1,
    decreases n,
{
    lemma_divide(n, p);
    let rest = n / p;
    lemma_split_power(rest, p);
    let q = power_part(rest, p);
    lemma_multiple(p as int, q as int);
    if rest % p != 0 {
        assert(q == 1);
        assert((p - 1) * 1 == p - 1);
        assert(p * 1 == p);
        lemma_fermat(a, p);
    } else {
        lemma_prime_power(a, rest, p);
        let e = share(rest, p);
        lemma_lift(pow(a, e), q, p);
        lemma_pow_multiplies(a, e, p);
        lemma_divide(rest, p);
        let r = power_part(rest / p, p);
        assert(share(n, p) == e * p) by (nonlinear_arith)
            requires
                share(n, p) == (p - 1) * q,
                q == p * r,
                e == (p - 1) * r,
        ;
        assert(q * p == p * q) by (nonlinear_arith);
    }
    lemma_split_power(n, p);
}

/// What the share of a prime factor `p` and the totient of the rest give
/// together: where the power to the totient of what is left of `n` without
/// `p` leaves the rest 1 modulo that, the power to the product of the two
/// leaves the rest 1 modulo `n`.
proof fn lemma_join(a: int, n: nat, p: nat, t: nat)
    requires
        prime(p),
        n >= 1,
        n % p == 0,
        unit(a, n as int),
        eqm(pow(a, t), 1, strip(n, p) as int),
    ensures
        eqm(pow(a, share(n, p) * t), 1, n as int),
{
    let m = strip(n, p);
    let q = power_part(n, p);
    let e = share(n, p);
    lemma_split_power(n, p);
    lemma_fundamental_div_mod(n as int, p as int);
    lemma_unit_factor(a, n as int, p as int, (n / p) as int);
    lemma_prime_power(a, n, p);
    // `p` and what is left have no common factor
    assert forall|d: nat| d > 1 implies !(#[trigger] (p % d) == 0 && m % d == 0) by {
        if p % d == 0 && m % d == 0 {
            lemma_divisor_bound(d, p);
            if d < p {
                assert(2 <= d < p);
            }
            assert(d == p);
        }
    }
    lemma_bezout(p, m);
    lemma_unit_power_part(n, p, m);
    // the power leaves the rest 1 modulo both
    lemma_pow_multiplies(a, e, t);
    lemma_eqm_pow(pow(a, e), 1, t, q as int);
    lemma_unit_pow(t);
    lemma_pow_multiplies(a, t, e);
    lemma_eqm_pow(pow(a, t), 1, e, m as int);
    lemma_unit_pow(e);
    assert(e * t == t * e) by (nonlinear_arith);
    lemma_both(pow(a, e * t), q, m);
}

/// Whether `n` has no factor from 2 up to `i`.
pub open spec fn no_small(n: nat, i: nat) -> bool {
    forall|d: nat| 2 <= d < i ==> #[trigger] (n % d) != 0
}

/// A number without a factor from 2 up to `i`, whose square `i * i` is above
/// it, is 1 or a prime.
proof fn lemma_last_prime(n: nat, i: nat)
    requires
        n >= 2,
        i * i > n,
        no_small(n, i),
    ensures
        prime(n),
{
    assert forall|d: nat| 2 <= d < n implies #[trigger] (n % d) != 0 by {
        if n % d == 0 {
            let e = n / d;
            lemma_fundamental_div_mod(n as int, d as int);
            assert(e >= 2 && e < i) by (nonlinear_arith)
                requires
                    n == d * e,
                    2 <= d < n,
                    d >= i,
                    i * i > n,
                    e >= 0,
            ;
            lemma_multiple(e as int, d as int);
            assert(e * d == d * e) by (nonlinear_arith);
            assert(n % e == 0);
        }
    }
}

/// The factors of what is left of `n` without `p` are factors of `n`.
proof fn lemma_strip_factor(n: nat, p: nat, d: nat)
    requires
        n >= 1,
        p >= 2,
        d >= 1,
        strip(n, p) % d == 0,
    ensures
        n % d == 0,
{
    lemma_split_power(n, p);
    let m = strip(n, p);
    lemma_multiple(m as int, power_part(n, p) as int);
    assert(power_part(n, p) * m == n);
    lemma_divides_trans(d, m, n);
}

/// Euler's theorem for what `totient_from` counts: a number with an inverse
/// modulo an odd `n` without a factor below the odd number `i`, raised to
/// `totient_from(n, i)`, leaves the rest 1.
proof fn lemma_totient_from(a: int, n: nat, i: nat)
    requires
        n >= 1,
        i >= 3,
        i % 2 == 1,
        no_small(n, i),
        unit(a, n as int),
    ensures
        eqm(pow(a, totient_from(n, i)), 1, n as int),
    decreases n, n + 2 - i,
{
    if i * i > n {
        if n == 1 {
            assert(pow(a, 1) % 1 == 1int % 1);
        } else {
            lemma_last_prime(n, i);
            lemma_fermat(a, n);
        }
    } else {
        assert(i <= n) by (nonlinear_arith)
            requires
                i * i <= n,
                i >= 3,
        ;
        let m = strip(n, i);
        lemma_split_power(n, i);
        // what is left has no factor up to `i + 2`
        assert forall|d: nat| 2 <= d < i + 2 implies #[trigger] (m % d) != 0 by {
            if m % d == 0 {
                lemma_strip_factor(n, i, d);
                if d == i + 1 {
                    lemma_divides_trans(2, d, n);
                    assert(n % 2 != 0);
                }
            }
        }
        lemma_multiple(m as int, power_part(n, i) as int);
        lemma_fundamental_div_mod(n as int, m as int);
        lemma_unit_factor(a, n as int, m as int, (n / m) as int);
        if n % i != 0 {
            assert(m == n);
            lemma_totient_from(a, n, i + 2);
            assert(1 * totient_from(n, i + 2) == totient_from(n, i + 2));
        } else {
            lemma_divide(n, i);
            assert(m < n) by {
                crate::modint::lemma_strip_below(n, i);
            }
            // `i` is a prime
            assert forall|d: nat| 2 <= d < i implies #[trigger] (i % d) != 0 by {
                if i % d == 0 {
                    lemma_divides_trans(d, i, n);
                }
            }
            lemma_totient_from(a, m, i + 2);
            lemma_join(a, n, i, totient_from(m, i + 2));
        }
    }
}

/// Euler's theorem: a number with an inverse modulo `n`, raised to the
/// totient of `n`, leaves the rest 1.
pub proof fn lemma_euler_unit(a: int, n: nat)
    requires
        n >= 1,
        unit(a, n as int),
    ensures
        eqm(pow(a, phi_spec(n)), 1, n as int),
{
    let m = strip(n, 2);
    lemma_split_power(n, 2);
    assert forall|d: nat| 2 <= d < 3 implies #[trigger] (m % d) != 0 by {}
    lemma_multiple(m as int, power_part(n, 2) as int);
    lemma_fundamental_div_mod(n as int, m as int);
    lemma_unit_factor(a, n as int, m as int, (n / m) as int);
    lemma_totient_from(a, m, 3);
    if n % 2 != 0 {
        assert(m == n);
        assert(1 * totient_from(m, 3) == totient_from(m, 3));
    } else {
        assert(prime(2));
        lemma_join(a, n, 2, totient_from(m, 3));
    }
}

/// Euler's theorem: a number that has no factor in common with `n`, raised
/// to the totient of `n`, leaves the rest 1 when divided by `n`.
pub proof fn lemma_euler(a: nat, n: nat)
    requires
        n >= 1,
        coprime(a, n),
    ensures
        eqm(pow(a as int, phi_spec(n)), 1, n as int),
{
    lemma_bezout(a, n);
    lemma_euler_unit(a as int, n);
}

/// The power to the totient less one is the inverse: a number that has no
/// factor in common with `n`, times its power to the totient of `n` less
/// one, leaves the rest 1 when divided by `n`.
pub proof fn lemma_inverse_power(a: nat, n: nat)
    requires
        n >= 1,
        coprime(a, n),
    ensures
        phi_spec(n) >= 1,
        eqm(a * pow(a as int, (phi_spec(n) - 1) as nat), 1, n as int),
{
    crate::modint::lemma_phi_positive(n);
    lemma_euler(a, n);
    lemma_pow_adds(a as int, 1, (phi_spec(n) - 1) as nat);
    lemma_pow1(a as int);
}

} // verus!
