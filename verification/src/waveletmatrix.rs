//! The wavelet matrix: a sequence of integers of a fixed number of binary
//! digits, kept digit by digit in rows of bits, so that ranges of it can be
//! asked how often a value occurs in them, and which value is the least, the
//! greatest or the `n`-th of them.

use crate::util::{
    inclusive_end, inclusive_start, normalize, range_lower, range_upper, range_within, IndexRange,
};
use std::ops::{Range, RangeFrom, RangeFull, RangeInclusive, RangeTo, RangeToInclusive};
use vstd::arithmetic::power2::{lemma_pow2_pos, lemma_pow2_unfold, pow2};
use vstd::prelude::*;

verus! {

/// The number of binary digits of `x` that are 1.
pub open spec fn pop(x: nat) -> nat
    decreases x,
{
    if x == 0 {
        0
    } else {
        x % 2 + pop(x / 2)
    }
}

/// `u64::count_ones`: the number of binary digits of `x` that are 1.
#[verifier::external_body]
fn count_ones(x: u64) -> (r: u32)
    ensures
        r == pop(x as nat),
{
    x.count_ones()
}

/// Whether the binary digit `j` of `x` is 1.
pub open spec fn digit(x: nat, j: nat) -> bool
    decreases j,
{
    if j == 0 {
        x % 2 == 1
    } else {
        digit(x / 2, (j - 1) as nat)
    }
}

/// How many of the first `k` binary digits of `x` are 1.
pub open spec fn ones_below(x: nat, k: nat) -> nat
    decreases k,
{
    if k == 0 {
        0
    } else {
        x % 2 + ones_below(x / 2, (k - 1) as nat)
    }
}

/// How many of the first `upto` of `bits` are set.
pub open spec fn ones(bits: Seq<bool>, upto: int) -> nat
    decreases upto,
{
    if upto <= 0 {
        0
    } else {
        ones(bits, upto - 1) + if bits[upto - 1] {
            1nat
        } else {
            0nat
        }
    }
}

/// Zero has no digit that is 1.
proof fn lemma_digit_zero(j: nat)
    ensures
        !digit(0, j),
    decreases j,
{
    if j > 0 {
        lemma_digit_zero((j - 1) as nat);
    }
}

/// A number below `2^j` has no digit from `j` on that is 1.
proof fn lemma_digit_high(x: nat, j: nat, t: nat)
    requires
        x < pow2(j),
        t >= j,
    ensures
        !digit(x, t),
    decreases j,
{
    if j == 0 {
        vstd::arithmetic::power2::lemma2_to64();
        lemma_digit_zero(t);
    } else {
        lemma_pow2_unfold(j);
        lemma_digit_high(x / 2, (j - 1) as nat, (t - 1) as nat);
    }
}

/// Adding `2^j` to a number below it sets the digit `j` and leaves the
/// others.
proof fn lemma_digit_set(x: nat, j: nat, t: nat)
    requires
        x < pow2(j),
    ensures
        digit(x + pow2(j), t) == (t == j || digit(x, t)),
    decreases j,
{
    vstd::arithmetic::power2::lemma2_to64();
    if j == 0 {
        if t > 0 {
            lemma_digit_zero((t - 1) as nat);
            lemma_digit_zero(t);
        }
    } else {
        lemma_pow2_unfold(j);
        lemma_pow2_pos((j - 1) as nat);
        let h = pow2((j - 1) as nat);
        assert((x + 2 * h) % 2 == x % 2) by (nonlinear_arith);
        assert((x + 2 * h) / 2 == x / 2 + h) by (nonlinear_arith);
        if t > 0 {
            lemma_digit_set(x / 2, (j - 1) as nat, (t - 1) as nat);
        }
    }
}

/// With one more digit counted, the count grows by that digit.
proof fn lemma_ones_below_next(x: nat, k: nat)
    ensures
        ones_below(x, k + 1) == ones_below(x, k) + if digit(x, k) {
            1nat
        } else {
            0nat
        },
    decreases k,
{
    if k > 0 {
        lemma_ones_below_next(x / 2, (k - 1) as nat);
        assert(ones_below(x, k + 1) == x % 2 + ones_below(x / 2, k));
        assert(ones_below(x, k) == x % 2 + ones_below(x / 2, (k - 1) as nat));
        assert(digit(x, k) == digit(x / 2, (k - 1) as nat));
    } else {
        assert(ones_below(x, 1) == x % 2 + ones_below(x / 2, 0));
    }
}

/// The digits that are 1 of the rest of `x` modulo `2^k` are those of the
/// first `k` digits of `x`.
proof fn lemma_pop_below(x: nat, k: nat)
    ensures
        pop(x % pow2(k)) == ones_below(x, k),
    decreases k,
{
    vstd::arithmetic::power2::lemma2_to64();
    if k == 0 {
        assert(x % 1 == 0);
    } else {
        lemma_pow2_unfold(k);
        lemma_pow2_pos((k - 1) as nat);
        let h = pow2((k - 1) as nat);
        lemma_pop_below(x / 2, (k - 1) as nat);
        let y = x % (2 * h);
        vstd::arithmetic::div_mod::lemma_breakdown(x as int, 2, h as int);
        assert(y == 2 * ((x / 2) % h) + x % 2);
        assert(y % 2 == x % 2 && y / 2 == (x / 2) % h);
        if y == 0 {
            assert(pop(0) == 0);
        }
    }
}

/// All digits of a number below `2^k` are among its first `k`.
proof fn lemma_pop_all(x: nat, k: nat)
    requires
        x < pow2(k),
    ensures
        pop(x) == ones_below(x, k),
{
    lemma_pop_below(x, k);
    vstd::arithmetic::div_mod::lemma_small_mod(x, pow2(k));
}

/// Bits, kept 64 to a word, with the number of set bits in front of each
/// word.
struct Dict {
    raw: Vec<u64>,
    sums: Vec<usize>,
    size: usize,
}

/// The bit at `i` of the words `raw`: a digit of the word it is kept in.
spec fn bit_at(raw: Seq<u64>, i: int) -> bool {
    digit(raw[i / 64] as nat, (i % 64) as nat)
}

/// The bits of the words `raw`.
spec fn all_bits(raw: Seq<u64>) -> Seq<bool> {
    Seq::new((64 * raw.len()) as nat, |i: int| bit_at(raw, i))
}

/// In a word, the number of set bits grows digit by digit.
proof fn lemma_in_word(raw: Seq<u64>, w: int, k: int)
    requires
        0 <= w < raw.len(),
        0 <= k <= 64,
    ensures
        ones(all_bits(raw), 64 * w + k) == ones(all_bits(raw), 64 * w) + ones_below(raw[w] as nat,
            k as nat),
    decreases k,
{
    if k > 0 {
        lemma_in_word(raw, w, k - 1);
        lemma_ones_below_next(raw[w] as nat, (k - 1) as nat);
        let i = 64 * w + k - 1;
        assert(i / 64 == w && i % 64 == k - 1);
        assert(all_bits(raw)[i] == bit_at(raw, i));
    }
}

impl Dict {
    /// The bit at `i`.
    spec fn bit(&self, i: int) -> bool {
        bit_at(self.raw@, i)
    }

    /// The bits of all words.
    spec fn all(&self) -> Seq<bool> {
        all_bits(self.raw@)
    }

    /// The bits.
    spec fn view(&self) -> Seq<bool> {
        Seq::new(self.size as nat, |i: int| self.bit(i))
    }

    /// There are words enough for the bits, the bits behind the last are not
    /// set, and in front of each word stands the number of bits that are set
    /// before it.
    spec fn wf(&self) -> bool {
        &&& self.size <= 64 * self.raw@.len() < self.size + 64
        &&& 64 * self.raw@.len() <= usize::MAX
        &&& self.sums@.len() == self.raw@.len() + 1
        &&& forall|i: int| self.size <= i < 64 * self.raw@.len() ==> !#[trigger] self.bit(i)
        &&& forall|w: int| 0 <= w <= self.raw@.len()
            ==> #[trigger] self.sums@[w] == ones(self.all(), 64 * w)
    }

    /// The number of bits that are set.
    spec fn total(&self) -> nat {
        ones(self@, self.size as int)
    }
}

/// Bits that are not set add nothing to the number of set bits.
proof fn lemma_ones_same(a: Seq<bool>, b: Seq<bool>, upto: int)
    requires
        forall|i: int| 0 <= i < upto ==> a[i] == b[i],
    ensures
        ones(a, upto) == ones(b, upto),
    decreases upto,
{
    if upto > 0 {
        lemma_ones_same(a, b, upto - 1);
    }
}

/// Bits that are not set add nothing to the number of set bits.
proof fn lemma_ones_rest(a: Seq<bool>, from: int, upto: int)
    requires
        from <= upto,
        forall|i: int| from <= i < upto ==> !a[i],
    ensures
        ones(a, upto) == ones(a, from),
    decreases upto - from,
{
    if upto > from {
        lemma_ones_rest(a, from, upto - 1);
    }
}

/// No more bits are set than there are, and no fewer in a longer part.
proof fn lemma_ones_bound(a: Seq<bool>, from: int, upto: int)
    requires
        0 <= from <= upto,
    ensures
        ones(a, from) <= ones(a, upto),
        ones(a, upto) - ones(a, from) <= upto - from,
        ones(a, upto) <= upto,
    decreases upto,
{
    if upto > from {
        lemma_ones_bound(a, from, upto - 1);
    }
    if upto > 0 {
        lemma_ones_bound(a, 0, upto - 1);
    }
}

impl Dict {
    /// The number of bits that are set in front of a place is the same
    /// among the bits and among the bits of all words.
    proof fn lemma_total(&self, upto: int)
        requires
            self.wf(),
            0 <= upto <= 64 * self.raw@.len(),
        ensures
            ones(self.all(), upto) == ones(self@, if upto <= self.size {
                upto
            } else {
                self.size as int
            }),
    {
        if upto <= self.size {
            lemma_ones_same(self.all(), self@, upto);
        } else {
            lemma_ones_same(self.all(), self@, self.size as int);
            assert forall|i: int| self.size <= i < upto implies !self.all()[i] by {
                assert(!self.bit(i));
            }
            lemma_ones_rest(self.all(), self.size as int, upto);
        }
    }

    /// Number of bits.
    fn len(&self) -> (r: usize)
        ensures
            r == self.size,
    {
        self.size
    }

    /// Number of bits that are set.
    fn count(&self) -> (r: usize)
        requires
            self.wf(),
        ensures
            r == self.total(),
            r <= self.size,
    {
        proof {
            self.lemma_total((64 * self.raw@.len()) as int);
            lemma_ones_bound(self@, 0, self.size as int);
        }
        self.sums[self.raw.len()]
    }

    /// The bit at `index`.
    fn get(&self, index: usize) -> (r: bool)
        requires
            self.wf(),
            index < self.size,
        ensures
            r == self@[index as int],
    {
        let word = self.raw[index / 64];
        let k = (index % 64) as u64;
        proof {
            lemma_digit_at(word, k as nat);
        }
        (word >> k) % 2 == 1
    }

    /// Number of bits that are set in front of `index`.
    fn rank(&self, index: usize) -> (r: usize)
        requires
            self.wf(),
            index <= self.size,
        ensures
            r == ones(self@, index as int),
            r <= index,
    {
        let w = index / 64;
        let k = (index % 64) as u64;
        proof {
            lemma_ones_bound(self@, 0, index as int);
            self.lemma_total(index as int);
        }
        if k == 0 {
            self.sums[w]
        } else {
            let word = self.raw[w];
            proof {
                vstd::bits::lemma_u64_pow2_no_overflow(k as nat);
                vstd::bits::lemma_u64_shl_is_mul(1, k);
                lemma_pow2_pos(k as nat);
            }
            let low = word % (1u64 << k);
            proof {
                lemma_pop_below(word as nat, k as nat);
                lemma_in_word(self.raw@, w as int, k as int);
                lemma_ones_bound(self.all(), 64 * w, index as int);
            }
            self.sums[w] + count_ones(low) as usize
        }
    }
}

/// A digit of a word is the last digit of the word shifted.
proof fn lemma_digit_at(x: u64, j: nat)
    requires
        j < 64,
    ensures
        digit(x as nat, j) == ((x >> (j as u64)) % 2 == 1),
    decreases j,
{
    let s = j as u64;
    if j == 0 {
        assert(x >> 0u64 == x) by (bit_vector);
    } else {
        lemma_digit_at(x / 2, (j - 1) as nat);
        let t = (j - 1) as u64;
        assert(0 < s < 64 && t == s - 1 ==> (x / 2) >> t == x >> s) by (bit_vector);
    }
}

impl Dict {
    /// Keeps `bits`, 64 to a word.
    fn build(bits: &Vec<bool>) -> (d: Dict)
        requires
            bits@.len() + 64 <= usize::MAX,
        ensures
            d.wf(),
            d@ == bits@,
            d.size == bits@.len(),
    {
        let n = bits.len();
        let mut raw: Vec<u64> = Vec::new();
        let mut sums: Vec<usize> = Vec::new();
        sums.push(0);
        let mut total: usize = 0;
        let mut i: usize = 0;
        proof {
            vstd::arithmetic::power2::lemma2_to64();
            vstd::arithmetic::power2::lemma2_to64_rest();
        }
        while i < n
            invariant
                n == bits@.len(),
                n + 64 <= usize::MAX,
                i == 64 * raw@.len(),
                i < n + 64,
                sums@.len() == raw@.len() + 1,
                total == sums@[raw@.len() as int],
                total <= i,
                forall|p: int| 0 <= p < i && p < n ==> #[trigger] bit_at(raw@, p) == bits@[p],
                forall|p: int| n <= p < i ==> !#[trigger] bit_at(raw@, p),
                forall|w: int| 0 <= w <= raw@.len()
                    ==> #[trigger] sums@[w] == ones(all_bits(raw@), 64 * w),
            decreases n + 64 - i,
        {
            let mut word: u64 = 0;
            let mut place: u64 = 1;
            let mut j: usize = 0;
            let mut cnt: usize = 0;
            proof {
                vstd::arithmetic::power2::lemma2_to64();
            }
            while j < 64 && i + j < n
                invariant
                    n == bits@.len(),
                    n + 64 <= usize::MAX,
                    i < n,
                    j <= 64,
                    i + j <= n,
                    word < pow2(j as nat),
                    j < 64 ==> place == pow2(j as nat),
                    cnt == ones_below(word as nat, j as nat),
                    cnt <= j,
                    forall|t: int| 0 <= t < j
                        ==> #[trigger] digit(word as nat, t as nat) == bits@[i + t],
                decreases 64 - j,
            {
                let ghost before = word;
                proof {
                    lemma_pow2_unfold((j + 1) as nat);
                    vstd::bits::lemma_u64_pow2_no_overflow(j as nat);
                    if j + 1 < 64 {
                        vstd::bits::lemma_u64_pow2_no_overflow((j + 1) as nat);
                    } else {
                        vstd::arithmetic::power2::lemma2_to64_rest();
                    }
                    lemma_ones_below_next(before as nat, j as nat);
                    lemma_digit_high(before as nat, j as nat, j as nat);
                }
                if bits[i + j] {
                    word = word + place;
                    cnt = cnt + 1;
                    proof {
                        lemma_pop_all(before as nat, j as nat);
                        lemma_ones_below_next(word as nat, j as nat);
                        lemma_digit_set(before as nat, j as nat, j as nat);
                        assert forall|t: int| 0 <= t < j + 1
                            implies #[trigger] digit(word as nat, t as nat)
                            == bits@[i + t] by {
                            lemma_digit_set(before as nat, j as nat, t as nat);
                        }
                        lemma_ones_below_set(before as nat, j as nat, j as nat);
                    }
                }
                j = j + 1;
                if j < 64 {
                    place = place * 2;
                }
            }
            let ghost held = raw@;
            let ghost was = sums@;
            raw.push(word);
            proof {
                lemma_pop_all(word as nat, j as nat);
                assert(pow2(j as nat) <= pow2(64)) by {
                    if j < 64 {
                        vstd::arithmetic::power2::lemma_pow2_strictly_increases(j as nat, 64);
                    }
                }
                lemma_pop_all(word as nat, 64);
                let w = held.len() as int;
                assert forall|p: int| 0 <= p < 64 * w
                    implies all_bits(raw@)[p] == all_bits(held)[p] by {
                    assert(p / 64 < w);
                    assert(raw@[p / 64] == held[p / 64]);
                    assert(bit_at(raw@, p) == bit_at(held, p));
                }
                lemma_in_word(raw@, w, 64);
                lemma_ones_bound(all_bits(raw@), 64 * w, 64 * w + 64);
                assert forall|p: int| 0 <= p < i + 64 && p < n
                    implies #[trigger] bit_at(raw@, p) == bits@[p] by {
                    if p < i {
                        assert(raw@[p / 64] == held[p / 64]);
                        assert(bit_at(held, p) == bits@[p]);
                    } else {
                        assert(p / 64 == w && p % 64 == p - i);
                        assert(digit(word as nat, (p - i) as nat) == bits@[i + (p - i)]);
                    }
                }
                assert forall|p: int| n <= p < i + 64 implies !#[trigger] bit_at(raw@, p) by {
                    if p < i {
                        assert(raw@[p / 64] == held[p / 64]);
                        assert(!bit_at(held, p));
                    } else {
                        assert(p / 64 == w && p % 64 == p - i);
                        lemma_digit_high(word as nat, j as nat, (p - i) as nat);
                    }
                }
            }
            total = total + cnt;
            sums.push(total);
            proof {
                let w = held.len() as int;
                assert forall|v: int| 0 <= v <= raw@.len() implies #[trigger] sums@[v] == ones(
                    all_bits(raw@),
                    64 * v,
                ) by {
                    if v <= w {
                        assert(sums@[v] == was[v]);
                        assert forall|p: int| 0 <= p < 64 * v
                            implies all_bits(raw@)[p] == all_bits(held)[p] by {
                            assert(raw@[p / 64] == held[p / 64]);
                            assert(bit_at(raw@, p) == bit_at(held, p));
                        }
                        lemma_ones_same(all_bits(raw@), all_bits(held), 64 * v);
                    } else {
                        assert(v == w + 1);
                        assert forall|p: int| 0 <= p < 64 * w
                            implies all_bits(raw@)[p] == all_bits(held)[p] by {
                            assert(raw@[p / 64] == held[p / 64]);
                            assert(bit_at(raw@, p) == bit_at(held, p));
                        }
                        lemma_ones_same(all_bits(raw@), all_bits(held), 64 * w);
                        assert(was[w] == ones(all_bits(held), 64 * w));
                        assert(ones(all_bits(raw@), 64 * w + 64) == ones(all_bits(raw@),
                            64 * w) + ones_below(
                            word as nat,
                            64,
                        ));
                        assert(cnt == ones_below(word as nat, 64));
                        assert(sums@[v] == was[w] + cnt);
                    }
                }
            }
            i = i + 64;
        }
        let d = Dict { raw, sums, size: n };
        proof {
            assert(d@ =~= bits@);
        }
        d
    }
}

/// With the digit `j` set in a number below `2^j`, one more of the first
/// digits is 1 from there on.
proof fn lemma_ones_below_set(x: nat, j: nat, k: nat)
    requires
        x < pow2(j),
        k <= j,
    ensures
        ones_below(x + pow2(j), k) == ones_below(x, k),
    decreases k,
{
    if k > 0 {
        lemma_ones_below_set(x, j, (k - 1) as nat);
        lemma_ones_below_next(x, (k - 1) as nat);
        lemma_ones_below_next(x + pow2(j), (k - 1) as nat);
        lemma_digit_set(x, j, (k - 1) as nat);
    }
}

/// Whether the binary digit of `x` with the weight `p`, a power of two, is
/// 1.
pub open spec fn high(x: u64, p: nat) -> bool {
    (x as nat / p) % 2 == 1
}

/// The elements of `s` whose digit with the weight `p` is 1, where `b`
/// holds, or 0, where it does not: in their order.
pub open spec fn keep(s: Seq<u64>, p: nat, b: bool) -> Seq<u64>
    decreases s.len(),
{
    if s.len() == 0 {
        Seq::<u64>::empty()
    } else if high(s.last(), p) == b {
        keep(s.drop_last(), p, b).push(s.last())
    } else {
        keep(s.drop_last(), p, b)
    }
}

/// The elements of `s` from `lo` up to `hi`, in their order.
pub open spec fn within(s: Seq<u64>, lo: int, hi: int) -> Seq<u64>
    decreases s.len(),
{
    if s.len() == 0 {
        Seq::<u64>::empty()
    } else if lo <= s.last() < hi {
        within(s.drop_last(), lo, hi).push(s.last())
    } else {
        within(s.drop_last(), lo, hi)
    }
}

/// The elements of `s` whose digit with the weight `p` is 0, and behind
/// them those whose digit is 1.
pub open spec fn parted(s: Seq<u64>, p: nat) -> Seq<u64> {
    keep(s, p, false) + keep(s, p, true)
}

/// The order of the elements of `src` in the row `i` of a matrix of `n`
/// digits: that of `src` in the first row, and in each row after it that of
/// the row before, parted by the digit of that row.
pub open spec fn level(src: Seq<u64>, n: nat, i: nat) -> Seq<u64>
    decreases i,
{
    if i == 0 {
        src
    } else {
        parted(level(src, n, (i - 1) as nat), pow2((n - i) as nat))
    }
}

/// The digits with the weight `p` of the elements of `s`.
pub open spec fn marks(s: Seq<u64>, p: nat) -> Seq<bool> {
    Seq::new(s.len(), |j: int| high(s[j], p))
}

/// What is kept of a sequence and another behind it is what is kept of
/// each.
proof fn lemma_keep_add(a: Seq<u64>, b: Seq<u64>, p: nat, q: bool)
    ensures
        keep(a + b, p, q) == keep(a, p, q) + keep(b, p, q),
    decreases b.len(),
{
    if b.len() == 0 {
        assert(a + b =~= a);
        assert(keep(a, p, q) + keep(b, p, q) =~= keep(a, p, q));
    } else {
        lemma_keep_add(a, b.drop_last(), p, q);
        assert((a + b).drop_last() =~= a + b.drop_last());
        assert((a + b).last() == b.last());
        if high(b.last(), p) == q {
            let ka = keep(a, p, q);
            let kb = keep(b.drop_last(), p, q);
            assert((ka + kb).push(b.last()) =~= ka + kb.push(b.last()));
        }
    }
}

/// The elements in a range of a sequence and of another behind it are
/// those of each.
proof fn lemma_within_add(a: Seq<u64>, b: Seq<u64>, lo: int, hi: int)
    ensures
        within(a + b, lo, hi) == within(a, lo, hi) + within(b, lo, hi),
    decreases b.len(),
{
    if b.len() == 0 {
        assert(a + b =~= a);
        assert(within(a, lo, hi) + within(b, lo, hi) =~= within(a, lo, hi));
    } else {
        lemma_within_add(a, b.drop_last(), lo, hi);
        assert((a + b).drop_last() =~= a + b.drop_last());
        assert((a + b).last() == b.last());
        if lo <= b.last() < hi {
            assert((within(a, lo, hi) + within(b.drop_last(), lo, hi)).push(b.last()) =~= within(a,
                lo, hi)
                + within(b.drop_last(), lo, hi).push(b.last()));
        }
    }
}

/// As many elements are kept of the first `r` as have the digit: the
/// number of marks in front of `r` where the digit is 1, and the others
/// where it is 0.
proof fn lemma_keep_count(s: Seq<u64>, p: nat, r: int)
    requires
        0 <= r <= s.len(),
    ensures
        keep(s.subrange(0, r), p, true).len() == ones(marks(s, p), r),
        keep(s.subrange(0, r), p, false).len() == r - ones(marks(s, p), r),
    decreases r,
{
    if r > 0 {
        lemma_keep_count(s, p, r - 1);
        assert(s.subrange(0, r).drop_last() =~= s.subrange(0, r - 1));
        assert(s.subrange(0, r).last() == s[r - 1]);
        assert(marks(s, p)[r - 1] == high(s[r - 1], p));
    }
}

/// What is kept of a part of a sequence stands, in what is kept of the
/// sequence, behind what is kept of the elements in front of the part.
proof fn lemma_keep_range(s: Seq<u64>, p: nat, q: bool, l: int, r: int)
    requires
        0 <= l <= r <= s.len(),
    ensures
        keep(s.subrange(0, l), p, q).len() <= keep(s.subrange(0, r), p, q).len() <= keep(s, p,
            q).len(),
        keep(s, p, q).subrange(
            keep(s.subrange(0, l), p, q).len() as int,
            keep(s.subrange(0, r), p, q).len() as int,
        ) == keep(s.subrange(l, r), p, q),
{
    let a = s.subrange(0, l);
    let b = s.subrange(l, r);
    let c = s.subrange(r, s.len() as int);
    assert(s.subrange(0, r) =~= a + b);
    assert(s =~= (a + b) + c);
    lemma_keep_add(a, b, p, q);
    lemma_keep_add(a + b, c, p, q);
    let ka = keep(a, p, q);
    let kb = keep(b, p, q);
    let kc = keep(c, p, q);
    assert(((ka + kb) + kc).subrange(ka.len() as int, (ka + kb).len() as int) =~= kb);
}

/// Where `lo` is a multiple of `2 * p`, the numbers from `lo` up to
/// `lo + 2 * p` with the digit of the weight `p` are those from `lo + p` on.
proof fn lemma_high(x: u64, lo: int, p: nat)
    requires
        p > 0,
        0 <= lo,
        lo % (2 * p) as int == 0,
        lo <= x < lo + 2 * p,
    ensures
        high(x, p) == (x >= lo + p),
{
    let y = x - lo;
    let m = lo / (2 * p) as int;
    vstd::arithmetic::div_mod::lemma_fundamental_div_mod(lo, (2 * p) as int);
    assert(lo == (2 * p) * m);
    assert(lo == p * (2 * m)) by (nonlinear_arith)
        requires
            lo == (2 * p) * m,
    ;
    if y < p {
        vstd::arithmetic::div_mod::lemma_fundamental_div_mod_converse(x as int, p as int, 2 * m, y);
    } else {
        assert(x == p * (2 * m + 1) + (y - p)) by (nonlinear_arith)
            requires
                x == lo + y,
                lo == p * (2 * m),
        ;
        vstd::arithmetic::div_mod::lemma_fundamental_div_mod_converse(
            x as int,
            p as int,
            2 * m + 1,
            y - p,
        );
    }
}

/// Of the elements from `lo` up to `lo + 2 * p`, where `lo` is a multiple of
/// `2 * p`, those without the digit of the weight `p` are those below
/// `lo + p`, and those with it the others.
proof fn lemma_within_keep(s: Seq<u64>, lo: int, p: nat)
    requires
        p > 0,
        0 <= lo,
        lo % (2 * p) as int == 0,
    ensures
        keep(within(s, lo, lo + 2 * p), p, false) == within(s, lo, lo + p),
        keep(within(s, lo, lo + 2 * p), p, true) == within(s, lo + p, lo + 2 * p),
    decreases s.len(),
{
    if s.len() > 0 {
        lemma_within_keep(s.drop_last(), lo, p);
        let x = s.last();
        let rest = within(s.drop_last(), lo, lo + 2 * p);
        if lo <= x < lo + 2 * p {
            lemma_high(x, lo, p);
            assert(rest.push(x).drop_last() =~= rest);
            assert(rest.push(x).last() == x);
        }
    }
}

/// The elements from `lo` up to `hi` are those up to `mid` and those from
/// `mid` on: as many.
proof fn lemma_within_split(s: Seq<u64>, lo: int, mid: int, hi: int)
    requires
        lo <= mid <= hi,
    ensures
        within(s, lo, hi).len() == within(s, lo, mid).len() + within(s, mid, hi).len(),
    decreases s.len(),
{
    if s.len() > 0 {
        lemma_within_split(s.drop_last(), lo, mid, hi);
    }
}

/// Where all elements are from `lo` up to `hi`, they are all within.
proof fn lemma_within_all(s: Seq<u64>, lo: int, hi: int)
    requires
        forall|j: int| 0 <= j < s.len() ==> lo <= #[trigger] s[j] < hi,
    ensures
        within(s, lo, hi) == s,
    decreases s.len(),
{
    if s.len() > 0 {
        lemma_within_all(s.drop_last(), lo, hi);
        assert(s.drop_last().push(s.last()) =~= s);
    }
}

/// What is within is an element, and every element from `lo` up to `hi` is
/// within.
proof fn lemma_within_has(s: Seq<u64>, lo: int, hi: int)
    ensures
        within(s, lo, hi).len() <= s.len(),
        within(s, lo, hi).len() > 0
            <==> exists|j: int| 0 <= j < s.len() && lo <= #[trigger] s[j] < hi,
    decreases s.len(),
{
    if s.len() > 0 {
        lemma_within_has(s.drop_last(), lo, hi);
        if within(s.drop_last(), lo, hi).len() > 0 {
            let j = choose|j: int| 0 <= j < s.drop_last().len()
                && lo <= #[trigger] s.drop_last()[j] < hi;
            assert(s[j] == s.drop_last()[j]);
        }
        if exists|j: int| 0 <= j < s.len() && lo <= #[trigger] s[j] < hi {
            let j = choose|j: int| 0 <= j < s.len() && lo <= #[trigger] s[j] < hi;
            if j < s.len() - 1 {
                assert(s.drop_last()[j] == s[j]);
            }
        }
    }
}

/// Parting keeps the number of elements.
proof fn lemma_parted_len(s: Seq<u64>, p: nat)
    ensures
        parted(s, p).len() == s.len(),
        keep(s, p, false).len() + keep(s, p, true).len() == s.len(),
{
    lemma_keep_count(s, p, s.len() as int);
    assert(s.subrange(0, s.len() as int) =~= s);
}

/// Every row has as many elements as the sequence.
proof fn lemma_level_len(src: Seq<u64>, n: nat, i: nat)
    ensures
        level(src, n, i).len() == src.len(),
    decreases i,
{
    if i > 0 {
        lemma_level_len(src, n, (i - 1) as nat);
        lemma_parted_len(level(src, n, (i - 1) as nat), pow2((n - i) as nat));
    }
}

/// A part of a row, in the next row: what is kept of it stands behind what
/// is kept of the elements in front of it, and, where the digit is 1,
/// behind all elements whose digit is 0.
proof fn lemma_child(s: Seq<u64>, p: nat, l: int, r: int, one: bool)
    requires
        0 <= l <= r <= s.len(),
    ensures
        ({
            let base = if one {
                s.len() - ones(marks(s, p), s.len() as int)
            } else {
                0
            };
            let from = if one {
                ones(marks(s, p), l) as int
            } else {
                l - ones(marks(s, p), l)
            };
            let to = if one {
                ones(marks(s, p), r) as int
            } else {
                r - ones(marks(s, p), r)
            };
            &&& 0 <= from <= to
            &&& base + to <= s.len()
            &&& 0 <= base
            &&& parted(s, p).subrange(base + from, base + to) == keep(s.subrange(l, r), p, one)
        }),
{
    lemma_keep_count(s, p, l);
    lemma_keep_count(s, p, r);
    lemma_keep_count(s, p, s.len() as int);
    assert(s.subrange(0, s.len() as int) =~= s);
    lemma_keep_range(s, p, one, l, r);
    let k0 = keep(s, p, false);
    let k1 = keep(s, p, true);
    let from = keep(s.subrange(0, l), p, one).len() as int;
    let to = keep(s.subrange(0, r), p, one).len() as int;
    if one {
        assert((k0 + k1).subrange(k0.len() + from, k0.len() + to) =~= k1.subrange(from, to));
    } else {
        assert((k0 + k1).subrange(from, to) =~= k0.subrange(from, to));
    }
}

/// The elements of `v`, each without its digits from `n` on.
pub open spec fn lowest(v: Seq<u64>, n: nat) -> Seq<u64> {
    Seq::new(v.len(), |j: int| (v[j] as nat % pow2(n)) as u64)
}

/// The elements of `v`, as numbers of 64 digits.
pub open spec fn widened(v: Seq<u32>) -> Seq<u64> {
    Seq::new(v.len(), |j: int| v[j] as u64)
}

/// A sequence of numbers of `N` binary digits, kept in `N` rows of bits:
/// the row `i` holds the digit `N - 1 - i` of every element, in the order
/// in which the rows before it have parted the sequence.
pub struct WaveletMatrix<const N: usize>(Vec<Dict>, usize, Ghost<Seq<u64>>);

impl<const N: usize> View for WaveletMatrix<N> {
    type V = Seq<u64>;

    /// The sequence.
    closed spec fn view(&self) -> Seq<u64> {
        self.2@
    }
}

impl<const N: usize> WaveletMatrix<N> {
    /// There are `N` rows, from 1 to 64, each of which holds its digit of
    /// every element in the order of that row; and the elements have `N`
    /// digits.
    pub closed spec fn wf(&self) -> bool {
        &&& 1 <= N <= 64
        &&& self.0@.len() == N
        &&& self.1 == self.2@.len()
        &&& self.1 + 64 <= usize::MAX
        &&& forall|j: int| 0 <= j < self.2@.len() ==> #[trigger] self.2@[j] < pow2(N as nat)
        &&& forall|i: int|
            0 <= i < N ==> (#[trigger] self.0@[i]).wf() && self.0@[i]@ == marks(
                level(self.2@, N as nat, i as nat),
                pow2((N - 1 - i) as nat),
            )
    }

    /// The elements of a matrix have `N` digits.
    pub proof fn lemma_digits(&self, j: int)
        requires
            self.wf(),
            0 <= j < self@.len(),
        ensures
            self@[j] < pow2(N as nat),
    {
    }

    /// The matrix of a sequence of numbers of `N` digits.
    fn build(cur: Vec<u64>) -> (r: Self)
        requires
            1 <= N <= 64,
            cur@.len() + 64 <= usize::MAX,
            forall|j: int| 0 <= j < cur@.len() ==> #[trigger] cur@[j] < pow2(N as nat),
        ensures
            r.wf(),
            r@ == cur@,
    {
        let ghost src = cur@;
        let len = cur.len();
        let mut cur = cur;
        let mut rows: Vec<Dict> = Vec::new();
        proof {
            vstd::bits::lemma_u64_pow2_no_overflow((N - 1) as nat);
            vstd::bits::lemma_u64_shl_is_mul(1, (N - 1) as u64);
        }
        let mut mask: u64 = 1u64 << ((N - 1) as u64);
        let mut i: usize = 0;
        while i < N
            invariant
                1 <= N <= 64,
                i <= N,
                len == src.len(),
                len + 64 <= usize::MAX,
                cur@ == level(src, N as nat, i as nat),
                cur@.len() == len,
                rows@.len() == i,
                i < N ==> mask == pow2((N - 1 - i) as nat),
                forall|t: int|
                    0 <= t < i ==> (#[trigger] rows@[t]).wf() && rows@[t]@ == marks(
                        level(src, N as nat, t as nat),
                        pow2((N - 1 - t) as nat),
                    ),
            decreases N - i,
        {
            let ghost p = pow2((N - 1 - i) as nat);
            let ghost s = cur@;
            proof {
                lemma_pow2_pos((N - 1 - i) as nat);
            }
            let mut bits: Vec<bool> = Vec::new();
            let mut next: Vec<u64> = Vec::new();
            let mut j: usize = 0;
            while j < len
                invariant
                    j <= len,
                    cur@ == s,
                    s.len() == len,
                    mask == p,
                    p > 0,
                    bits@.len() == j,
                    forall|t: int| 0 <= t < j ==> #[trigger] bits@[t] == high(s[t], p),
                    next@ == keep(s.subrange(0, j as int), p, false),
                decreases len - j,
            {
                let x = cur[j];
                let b = (x / mask) % 2 == 1;
                bits.push(b);
                proof {
                    assert(s.subrange(0, j + 1).drop_last() =~= s.subrange(0, j as int));
                    assert(s.subrange(0, j + 1).last() == x);
                }
                if !b {
                    next.push(x);
                }
                j += 1;
            }
            j = 0;
            proof {
                assert(s.subrange(0, len as int) =~= s);
                assert(s.subrange(0, 0) =~= Seq::<u64>::empty());
                assert(next@ =~= keep(s, p, false) + keep(s.subrange(0, 0), p, true));
            }
            while j < len
                invariant
                    j <= len,
                    cur@ == s,
                    s.len() == len,
                    mask == p,
                    p > 0,
                    next@ == keep(s, p, false) + keep(s.subrange(0, j as int), p, true),
                decreases len - j,
            {
                let x = cur[j];
                proof {
                    assert(s.subrange(0, j + 1).drop_last() =~= s.subrange(0, j as int));
                    assert(s.subrange(0, j + 1).last() == x);
                }
                if (x / mask) % 2 == 1 {
                    proof {
                        let k0 = keep(s, p, false);
                        let k1 = keep(s.subrange(0, j as int), p, true);
                        assert((k0 + k1).push(x) =~= k0 + k1.push(x));
                    }
                    next.push(x);
                }
                j += 1;
            }
            let row = Dict::build(&bits);
            let ghost held = rows@;
            rows.push(row);
            proof {
                assert(s.subrange(0, len as int) =~= s);
                assert(bits@ =~= marks(s, p));
                assert(next@ == parted(s, p));
                lemma_parted_len(s, p);
                assert(level(src, N as nat, (i + 1) as nat) == parted(
                    level(src, N as nat, i as nat),
                    pow2((N - (i + 1)) as nat),
                ));
                assert forall|t: int| 0 <= t < i + 1
                    implies (#[trigger] rows@[t]).wf() && rows@[t]@ == marks(
                    level(src, N as nat, t as nat),
                    pow2((N - 1 - t) as nat),
                ) by {
                    if t < i {
                        assert(rows@[t] == held[t]);
                    }
                }
                if i + 1 < N {
                    lemma_pow2_unfold((N - 1 - i) as nat);
                }
            }
            cur = next;
            mask = mask / 2;
            i += 1;
        }
        WaveletMatrix(rows, len, Ghost(src))
    }

    /// The matrix of the elements of `v`, each without its digits from `N`
    /// on.
    pub fn from_u64_slice(v: &[u64]) -> (r: Self)
        requires
            1 <= N <= 64,
            v@.len() + 64 <= usize::MAX,
        ensures
            r.wf(),
            r@ == lowest(v@, N as nat),
    {
        let mut cur: Vec<u64> = Vec::new();
        let mut j: usize = 0;
        proof {
            vstd::arithmetic::power2::lemma2_to64();
            vstd::arithmetic::power2::lemma2_to64_rest();
            lemma_pow2_pos(N as nat);
        }
        while j < v.len()
            invariant
                1 <= N <= 64,
                j <= v@.len(),
                cur@.len() == j,
                forall|t: int| 0 <= t < j
                    ==> #[trigger] cur@[t] == (v@[t] as nat % pow2(N as nat)) as u64,
                forall|t: int| 0 <= t < j ==> #[trigger] cur@[t] < pow2(N as nat),
            decreases v@.len() - j,
        {
            let x = v[j];
            if N < 64 {
                proof {
                    vstd::bits::lemma_u64_pow2_no_overflow(N as nat);
                    vstd::bits::lemma_u64_shl_is_mul(1, N as u64);
                    lemma_pow2_pos(N as nat);
                    vstd::arithmetic::div_mod::lemma_mod_bound(x as int, pow2(N as nat) as int);
                }
                cur.push(x % (1u64 << (N as u64)));
            } else {
                proof {
                    vstd::arithmetic::power2::lemma2_to64_rest();
                    vstd::arithmetic::div_mod::lemma_small_mod(x as nat, pow2(64));
                }
                cur.push(x);
            }
            j += 1;
        }
        let r = Self::build(cur);
        proof {
            assert(r@ =~= lowest(v@, N as nat));
        }
        r
    }

    /// The matrix of the elements of `v`, each without its digits from `N`
    /// on.
    pub fn from_u32_slice(v: &[u32]) -> (r: Self)
        requires
            1 <= N <= 32,
            v@.len() + 64 <= usize::MAX,
        ensures
            r.wf(),
            r@ == lowest(widened(v@), N as nat),
    {
        let mut wide: Vec<u64> = Vec::new();
        let mut j: usize = 0;
        while j < v.len()
            invariant
                j <= v@.len(),
                wide@.len() == j,
                forall|t: int| 0 <= t < j ==> #[trigger] wide@[t] == v@[t] as u64,
            decreases v@.len() - j,
        {
            wide.push(v[j] as u64);
            j += 1;
        }
        proof {
            assert(wide@ =~= widened(v@));
        }
        Self::from_u64_slice(wide.as_slice())
    }

    /// Number of elements.
    pub fn len(&self) -> (r: usize)
        requires
            self.wf(),
        ensures
            r == self@.len(),
    {
        self.1
    }

    /// Whether there is no element.
    pub fn is_empty(&self) -> (r: bool)
        requires
            self.wf(),
        ensures
            r == (self@.len() == 0),
    {
        self.1 == 0
    }
}

/// How often `x` occurs in `s`.
pub open spec fn occurrences(s: Seq<u64>, x: int) -> nat {
    within(s, x, x + 1).len()
}

/// How many elements of `s` are below `x`.
pub open spec fn below(s: Seq<u64>, x: int) -> nat {
    within(s, 0, x).len()
}

/// Whether `x` is the greatest element of `s`.
pub open spec fn greatest(s: Seq<u64>, x: u64) -> bool {
    &&& exists|j: int| 0 <= j < s.len() && #[trigger] s[j] == x
    &&& forall|j: int| 0 <= j < s.len() ==> #[trigger] s[j] <= x
}

/// Whether `x` is the least element of `s`.
pub open spec fn least(s: Seq<u64>, x: u64) -> bool {
    &&& exists|j: int| 0 <= j < s.len() && #[trigger] s[j] == x
    &&& forall|j: int| 0 <= j < s.len() ==> #[trigger] s[j] >= x
}

/// The digits of `x` above the weight `p`, and with them the digit of the
/// weight `p`.
proof fn lemma_upper_digits(x: u64, p: nat)
    requires
        p > 0,
    ensures
        (x as nat / (2 * p)) * (2 * p) + (if high(x, p) {
            p
        } else {
            0
        }) == (x as nat / p) * p,
        (x as nat / p) * p <= x,
{
    let a = x as int / p as int;
    vstd::arithmetic::div_mod::lemma_div_denominator(x as int, p as int, 2);
    assert(p * 2 == 2 * p);
    vstd::arithmetic::div_mod::lemma_fundamental_div_mod(a, 2);
    let h = a / 2;
    assert(h == x as int / (2 * p) as int);
    assert(h * (2 * p) + (a % 2) * p == a * p) by (nonlinear_arith)
        requires
            a == 2 * h + a % 2,
    ;
    vstd::arithmetic::div_mod::lemma_fundamental_div_mod(x as int, p as int);
    vstd::arithmetic::div_mod::lemma_mod_bound(x as int, p as int);
    assert(p * a == a * p) by (nonlinear_arith);
    vstd::arithmetic::div_mod::lemma_div_pos_is_pos(x as int, p as int);
    if a % 2 == 1 {
        assert((a % 2) * p == p) by (nonlinear_arith)
            requires
                a % 2 == 1,
        ;
    } else {
        assert((a % 2) * p == 0) by (nonlinear_arith)
            requires
                a % 2 == 0,
        ;
    }
}

/// A multiple of `2 * p` is a multiple of `p`, and so is the number that is
/// greater by `p`.
proof fn lemma_halved(lo: int, p: nat)
    requires
        p > 0,
        0 <= lo,
        lo % (2 * p) as int == 0,
    ensures
        lo % p as int == 0,
        (lo + p) % p as int == 0,
{
    let m = lo / (2 * p) as int;
    vstd::arithmetic::div_mod::lemma_fundamental_div_mod(lo, (2 * p) as int);
    assert(lo == p * (2 * m)) by (nonlinear_arith)
        requires
            lo == (2 * p) * m + 0,
    ;
    vstd::arithmetic::div_mod::lemma_fundamental_div_mod_converse(lo, p as int, 2 * m, 0);
    assert(lo + p == (2 * m + 1) * p + 0) by (nonlinear_arith)
        requires
            lo == p * (2 * m),
    ;
    vstd::arithmetic::div_mod::lemma_fundamental_div_mod_converse(lo + p, p as int, 2 * m + 1, 0);
}

impl<const N: usize> WaveletMatrix<N> {
    /// The weight of the digit of the first row.
    fn top_mask() -> (r: u64)
        requires
            1 <= N <= 64,
        ensures
            r == pow2((N - 1) as nat),
    {
        proof {
            vstd::bits::lemma_u64_pow2_no_overflow((N - 1) as nat);
            vstd::bits::lemma_u64_shl_is_mul(1, (N - 1) as u64);
        }
        1u64 << ((N - 1) as u64)
    }

    /// `val` without its digits from `N` on.
    fn low(val: u64) -> (r: u64)
        requires
            1 <= N <= 64,
        ensures
            r == val as nat % pow2(N as nat),
            r < pow2(N as nat),
    {
        if N < 64 {
            proof {
                vstd::bits::lemma_u64_pow2_no_overflow(N as nat);
                vstd::bits::lemma_u64_shl_is_mul(1, N as u64);
                lemma_pow2_pos(N as nat);
                vstd::arithmetic::div_mod::lemma_mod_bound(val as int, pow2(N as nat) as int);
            }
            val % (1u64 << (N as u64))
        } else {
            proof {
                vstd::arithmetic::power2::lemma2_to64_rest();
                vstd::arithmetic::div_mod::lemma_small_mod(val as nat, pow2(64));
            }
            val
        }
    }

    /// The elements from `l` up to `r` of the row `i` are, in the row
    /// `i`, those of the part from `from` up to `to` of the sequence that
    /// begin with the digits of `lo` above the digit of the row.
    spec fn node(&self, from: int, to: int, i: nat, l: int, r: int, lo: int) -> bool {
        let q = pow2((N - i) as nat) as int;
        &&& 0 <= l <= r <= self.2@.len()
        &&& 0 <= lo
        &&& lo % q == 0
        &&& lo + q <= pow2(N as nat)
        &&& level(self.2@, N as nat, i).subrange(l, r) == within(self.2@.subrange(from, to), lo,
            lo + q)
    }

    /// A part of the sequence is a part of the first row.
    proof fn lemma_root(&self, from: int, to: int)
        requires
            self.wf(),
            0 <= from <= to <= self@.len(),
        ensures
            self.node(from, to, 0, from, to, 0),
    {
        let part = self.2@.subrange(from, to);
        assert forall|j: int| 0 <= j < part.len()
            implies 0 <= #[trigger] part[j] < pow2(N as nat) by {
            assert(self.2@[from + j] < pow2(N as nat));
        }
        lemma_within_all(part, 0, pow2(N as nat) as int);
        lemma_pow2_pos(N as nat);
        assert(0int % (pow2(N as nat) as int) == 0);
    }

    /// Where the elements in front of the place `pos` of the row `i`, whose
    /// digit of that row is 1, where `one` holds, or 0, where it does not,
    /// end in the row `i + 1`.
    spec fn down(&self, i: nat, pos: int, one: bool) -> int {
        let s = level(self.2@, N as nat, i);
        let p = pow2((N - 1 - i) as nat);
        if one {
            s.len() - ones(marks(s, p), s.len() as int) + ones(marks(s, p), pos)
        } else {
            pos - ones(marks(s, p), pos)
        }
    }

    /// The two parts of the row `i + 1` that hold the elements from `l` up
    /// to `r` of the row `i`: first those without the digit of the row `i`,
    /// then those with it.
    fn children(&self, i: usize, l: usize, r: usize) -> (c: ((usize, usize), (usize, usize)))
        requires
            self.wf(),
            i < N,
            l <= r <= self@.len(),
        ensures
            c.0.0 == self.down(i as nat, l as int, false),
            c.0.1 == self.down(i as nat, r as int, false),
            c.1.0 == self.down(i as nat, l as int, true),
            c.1.1 == self.down(i as nat, r as int, true),
            c.0.0 <= c.0.1 <= self@.len(),
            c.1.0 <= c.1.1 <= self@.len(),
            (c.0.1 - c.0.0) + (c.1.1 - c.1.0) == r - l,
            level(self@, N as nat, (i + 1) as nat).subrange(c.0.0 as int, c.0.1 as int) == keep(
                level(self@, N as nat, i as nat).subrange(l as int, r as int),
                pow2((N - 1 - i) as nat),
                false,
            ),
            level(self@, N as nat, (i + 1) as nat).subrange(c.1.0 as int, c.1.1 as int) == keep(
                level(self@, N as nat, i as nat).subrange(l as int, r as int),
                pow2((N - 1 - i) as nat),
                true,
            ),
            forall|from: int, to: int, lo: int| #[trigger]
                self.node(from, to, i as nat, l as int, r as int, lo) ==> self.node(
                    from,
                    to,
                    (i + 1) as nat,
                    c.0.0 as int,
                    c.0.1 as int,
                    lo,
                ) && self.node(
                    from,
                    to,
                    (i + 1) as nat,
                    c.1.0 as int,
                    c.1.1 as int,
                    lo + pow2((N - 1 - i) as nat),
                ),
    {
        let row = &self.0[i];
        let ghost s = level(self@, N as nat, i as nat);
        let ghost p = pow2((N - 1 - i) as nat);
        proof {
            lemma_level_len(self@, N as nat, i as nat);
            assert(row.wf() && row@ == marks(s, p));
            assert(row@.len() == s.len());
            lemma_child(s, p, l as int, r as int, false);
            lemma_child(s, p, l as int, r as int, true);
            assert(level(self@, N as nat, (i + 1) as nat) == parted(s, pow2((N - (i + 1)) as nat)));
            lemma_ones_bound(marks(s, p), l as int, r as int);
        }
        let sl = row.rank(l);
        let sr = row.rank(r);
        let z = self.1 - row.count();
        let c = ((l - sl, r - sr), (z + sl, z + sr));
        proof {
            lemma_pow2_pos((N - 1 - i) as nat);
            lemma_pow2_unfold((N - i) as nat);
            assert forall|from: int, to: int, lo: int| #[trigger]
                self.node(from, to, i as nat, l as int, r as int, lo) implies self.node(
                from,
                to,
                (i + 1) as nat,
                c.0.0 as int,
                c.0.1 as int,
                lo,
            ) && self.node(from, to, (i + 1) as nat, c.1.0 as int, c.1.1 as int, lo + p) by {
                lemma_within_keep(self@.subrange(from, to), lo, p);
                lemma_halved(lo, p);
            }
        }
        c
    }

    /// The element at `index`.
    pub fn access(&self, index: usize) -> (r: u64)
        requires
            self.wf(),
            index < self@.len(),
        ensures
            r == self@[index as int],
    {
        let ghost x = self@[index as int];
        let mut idx = index;
        let mut ret: u64 = 0;
        let mut mask = Self::top_mask();
        let mut i: usize = 0;
        proof {
            lemma_pow2_pos(N as nat);
            assert(self.2@[index as int] < pow2(N as nat));
            vstd::arithmetic::div_mod::lemma_basic_div(x as int, pow2(N as nat) as int);
            assert(0 * pow2(N as nat) == 0);
        }
        while i < N
            invariant
                self.wf(),
                i <= N,
                idx < self@.len(),
                x == self@[index as int],
                level(self@, N as nat, i as nat)[idx as int] == x,
                i < N ==> mask == pow2((N - 1 - i) as nat),
                ret == (x as nat / pow2((N - i) as nat)) * pow2((N - i) as nat),
            decreases N - i,
        {
            let ghost s = level(self@, N as nat, i as nat);
            let ghost p = pow2((N - 1 - i) as nat);
            proof {
                lemma_level_len(self@, N as nat, i as nat);
                lemma_level_len(self@, N as nat, (i + 1) as nat);
                lemma_pow2_pos((N - 1 - i) as nat);
                lemma_pow2_unfold((N - i) as nat);
                lemma_upper_digits(x, p);
                assert(self.0@[i as int].wf() && self.0@[i as int]@ == marks(s, p));
                assert(self.0@[i as int]@.len() == marks(s, p).len());
            }
            let b = self.0[i].get(idx);
            let c = self.children(i, idx, idx + 1);
            proof {
                let one = s.subrange(idx as int, idx + 1);
                assert(one.drop_last() =~= Seq::<u64>::empty());
                assert(one.last() == x);
                assert(keep(one, p, b) =~= seq![x]);
                assert(keep(one, p, !b) =~= Seq::<u64>::empty());
                let t = level(self@, N as nat, (i + 1) as nat);
                if b {
                    assert(t.subrange(c.1.0 as int, c.1.1 as int).len() == 1);
                    assert(t.subrange(c.1.0 as int, c.1.1 as int)[0] == x);
                } else {
                    assert(t.subrange(c.0.0 as int, c.0.1 as int).len() == 1);
                    assert(t.subrange(c.0.0 as int, c.0.1 as int)[0] == x);
                }
                if i + 1 < N {
                    lemma_pow2_unfold((N - 1 - i) as nat);
                }
            }
            if b {
                ret = ret + mask;
                idx = c.1.0;
            } else {
                idx = c.0.0;
            }
            mask = mask / 2;
            i += 1;
        }
        proof {
            vstd::arithmetic::power2::lemma2_to64();
            assert((x as nat / 1) * 1 == x);
        }
        ret
    }

    /// How often `val`, without its digits from `N` on, occurs in `range`.
    pub fn rank<R: IndexRange>(&self, val: u64, range: R) -> (r: usize)
        requires
            self.wf(),
            range_within(&range, self@.len() as int),
        ensures
            r == occurrences(
                self@.subrange(range_lower(&range), range_upper(&range, self@.len() as int)),
                (val as nat % pow2(N as nat)) as int,
            ),
    {
        let (from, to) = normalize(&range, self.1);
        let v = Self::low(val);
        let mut l = from;
        let mut r = to;
        let mut mask = Self::top_mask();
        let mut i: usize = 0;
        let ghost mut lo: int = 0;
        proof {
            self.lemma_root(from as int, to as int);
        }
        while i < N
            invariant
                self.wf(),
                i <= N,
                from <= to <= self@.len(),
                self.node(from as int, to as int, i as nat, l as int, r as int, lo),
                lo <= v < lo + pow2((N - i) as nat),
                i < N ==> mask == pow2((N - 1 - i) as nat),
            decreases N - i,
        {
            let ghost p = pow2((N - 1 - i) as nat);
            proof {
                lemma_pow2_pos((N - 1 - i) as nat);
                lemma_pow2_unfold((N - i) as nat);
                lemma_high(v, lo, p);
                if i + 1 < N {
                    lemma_pow2_unfold((N - 1 - i) as nat);
                }
            }
            let c = self.children(i, l, r);
            if (v / mask) % 2 == 1 {
                l = c.1.0;
                r = c.1.1;
                proof {
                    lo = lo + p;
                }
            } else {
                l = c.0.0;
                r = c.0.1;
            }
            mask = mask / 2;
            i += 1;
        }
        proof {
            vstd::arithmetic::power2::lemma2_to64();
            lemma_level_len(self@, N as nat, N as nat);
        }
        r - l
    }

    /// How many elements from `from` up to `to` are below `x`.
    fn count_below(&self, x: u64, from: usize, to: usize) -> (r: usize)
        requires
            self.wf(),
            from <= to <= self@.len(),
            x < pow2(N as nat),
        ensures
            r == below(self@.subrange(from as int, to as int), x as int),
            r <= to - from,
    {
        let mut l = from;
        let mut r = to;
        let mut ret: usize = 0;
        let mut mask = Self::top_mask();
        let mut i: usize = 0;
        let ghost mut lo: int = 0;
        let ghost part = self@.subrange(from as int, to as int);
        proof {
            self.lemma_root(from as int, to as int);
            lemma_within_has(part, 0, 0);
            lemma_within_has(part, 0, x as int);
        }
        while i < N
            invariant
                self.wf(),
                i <= N,
                from <= to <= self@.len(),
                part == self@.subrange(from as int, to as int),
                self.node(from as int, to as int, i as nat, l as int, r as int, lo),
                lo <= x < lo + pow2((N - i) as nat),
                ret == below(part, lo),
                ret + (r - l) <= to - from,
                i < N ==> mask == pow2((N - 1 - i) as nat),
            decreases N - i,
        {
            let ghost p = pow2((N - 1 - i) as nat);
            proof {
                lemma_pow2_pos((N - 1 - i) as nat);
                lemma_pow2_unfold((N - i) as nat);
                lemma_high(x, lo, p);
                lemma_within_split(part, 0, lo, lo + p);
                if i + 1 < N {
                    lemma_pow2_unfold((N - 1 - i) as nat);
                }
                lemma_level_len(self@, N as nat, (i + 1) as nat);
            }
            let c = self.children(i, l, r);
            if (x / mask) % 2 == 1 {
                ret = ret + (c.0.1 - c.0.0);
                l = c.1.0;
                r = c.1.1;
                proof {
                    lo = lo + p;
                }
            } else {
                l = c.0.0;
                r = c.0.1;
            }
            mask = mask / 2;
            i += 1;
        }
        proof {
            vstd::arithmetic::power2::lemma2_to64();
        }
        ret
    }

    /// The greatest element in `range`; 0 where `range` is empty.
    pub fn max<R: IndexRange>(&self, range: R) -> (r: u64)
        requires
            self.wf(),
            range_within(&range, self@.len() as int),
        ensures
            range_lower(&range) < range_upper(&range, self@.len() as int) ==> greatest(
                self@.subrange(range_lower(&range), range_upper(&range, self@.len() as int)),
                r,
            ),
            range_lower(&range) == range_upper(&range, self@.len() as int) ==> r == 0,
    {
        let (from, to) = normalize(&range, self.1);
        let mut l = from;
        let mut r = to;
        let mut ret: u64 = 0;
        let mut mask = Self::top_mask();
        let mut i: usize = 0;
        let ghost part = self@.subrange(from as int, to as int);
        let ghost top = pow2(N as nat) as int;
        proof {
            self.lemma_root(from as int, to as int);
            lemma_within_has(part, top, top);
        }
        while i < N
            invariant
                self.wf(),
                i <= N,
                from <= to <= self@.len(),
                part == self@.subrange(from as int, to as int),
                top == pow2(N as nat),
                self.node(from as int, to as int, i as nat, l as int, r as int, ret as int),
                within(part, ret + pow2((N - i) as nat), top).len() == 0,
                from < to ==> l < r,
                from == to ==> ret == 0,
                i < N ==> mask == pow2((N - 1 - i) as nat),
            decreases N - i,
        {
            let ghost p = pow2((N - 1 - i) as nat);
            proof {
                lemma_pow2_pos((N - 1 - i) as nat);
                lemma_pow2_unfold((N - i) as nat);
                lemma_within_split(part, ret + p, ret + 2 * p, top);
                if i + 1 < N {
                    lemma_pow2_unfold((N - 1 - i) as nat);
                }
                lemma_level_len(self@, N as nat, (i + 1) as nat);
                vstd::arithmetic::power2::lemma2_to64_rest();
                if N < 64 {
                    vstd::arithmetic::power2::lemma_pow2_strictly_increases(N as nat, 64);
                }
            }
            let c = self.children(i, l, r);
            if c.1.0 == c.1.1 {
                l = c.0.0;
                r = c.0.1;
            } else {
                ret = ret + mask;
                l = c.1.0;
                r = c.1.1;
            }
            mask = mask / 2;
            i += 1;
        }
        proof {
            vstd::arithmetic::power2::lemma2_to64();
            lemma_level_len(self@, N as nat, N as nat);
            lemma_within_has(part, ret as int, ret + 1);
            lemma_within_has(part, ret + 1, top);
            if from < to {
                assert(within(part, ret as int, ret + 1).len() == r - l);
                let j = choose|j: int| 0 <= j < part.len() && ret <= #[trigger] part[j] < ret + 1;
                assert(part[j] == ret);
                assert forall|k: int| 0 <= k < part.len() implies #[trigger] part[k] <= ret by {
                    assert(self.2@[from + k] < top);
                    if part[k] > ret {
                        assert(ret + 1 <= part[k] < top);
                    }
                }
            }
        }
        ret
    }

    /// The least element in `range`; the greatest number of `N` digits
    /// where `range` is empty.
    pub fn min<R: IndexRange>(&self, range: R) -> (r: u64)
        requires
            self.wf(),
            range_within(&range, self@.len() as int),
        ensures
            range_lower(&range) < range_upper(&range, self@.len() as int) ==> least(
                self@.subrange(range_lower(&range), range_upper(&range, self@.len() as int)),
                r,
            ),
            range_lower(&range) == range_upper(&range, self@.len() as int)
                ==> r == pow2(N as nat) - 1,
    {
        let (from, to) = normalize(&range, self.1);
        let mut l = from;
        let mut r = to;
        let mut ret: u64 = 0;
        let mut mask = Self::top_mask();
        let mut i: usize = 0;
        let ghost part = self@.subrange(from as int, to as int);
        proof {
            self.lemma_root(from as int, to as int);
            lemma_within_has(part, 0, 0);
        }
        while i < N
            invariant
                self.wf(),
                i <= N,
                from <= to <= self@.len(),
                part == self@.subrange(from as int, to as int),
                self.node(from as int, to as int, i as nat, l as int, r as int, ret as int),
                below(part, ret as int) == 0,
                from < to ==> l < r,
                from == to ==> ret + pow2((N - i) as nat) == pow2(N as nat),
                i < N ==> mask == pow2((N - 1 - i) as nat),
            decreases N - i,
        {
            let ghost p = pow2((N - 1 - i) as nat);
            proof {
                lemma_pow2_pos((N - 1 - i) as nat);
                lemma_pow2_unfold((N - i) as nat);
                lemma_within_split(part, 0, ret as int, ret + p);
                if i + 1 < N {
                    lemma_pow2_unfold((N - 1 - i) as nat);
                }
                lemma_level_len(self@, N as nat, (i + 1) as nat);
                vstd::arithmetic::power2::lemma2_to64_rest();
                if N < 64 {
                    vstd::arithmetic::power2::lemma_pow2_strictly_increases(N as nat, 64);
                }
            }
            let c = self.children(i, l, r);
            if c.0.0 == c.0.1 {
                ret = ret + mask;
                l = c.1.0;
                r = c.1.1;
            } else {
                l = c.0.0;
                r = c.0.1;
            }
            mask = mask / 2;
            i += 1;
        }
        proof {
            vstd::arithmetic::power2::lemma2_to64();
            lemma_level_len(self@, N as nat, N as nat);
            lemma_within_has(part, ret as int, ret + 1);
            lemma_within_has(part, 0, ret as int);
            if from < to {
                assert(within(part, ret as int, ret + 1).len() == r - l);
                let j = choose|j: int| 0 <= j < part.len() && ret <= #[trigger] part[j] < ret + 1;
                assert(part[j] == ret);
                assert forall|k: int| 0 <= k < part.len() implies #[trigger] part[k] >= ret by {
                    if part[k] < ret {
                        assert(0 <= part[k] < ret);
                    }
                }
            }
        }
        ret
    }

    /// The element of `range` that comes at the place `n` when the elements
    /// are put in order, the least at the place 0: at most `n` elements of
    /// `range` are below it, and more than `n` are not above it.
    pub fn nth_smallest<R: IndexRange>(&self, range: R, n: usize) -> (r: u64)
        requires
            self.wf(),
            range_within(&range, self@.len() as int),
            n < range_upper(&range, self@.len() as int) - range_lower(&range),
        ensures
            below(self@.subrange(range_lower(&range), range_upper(&range, self@.len() as int)),
                r as int) <= n,
            n < below(
                self@.subrange(range_lower(&range), range_upper(&range, self@.len() as int)),
                r + 1,
            ),
    {
        let (from, to) = normalize(&range, self.1);
        let mut l = from;
        let mut r = to;
        let mut ret: u64 = 0;
        let mut left = n;
        let mut mask = Self::top_mask();
        let mut i: usize = 0;
        let ghost part = self@.subrange(from as int, to as int);
        proof {
            self.lemma_root(from as int, to as int);
            lemma_within_has(part, 0, 0);
        }
        while i < N
            invariant
                self.wf(),
                i <= N,
                from <= to <= self@.len(),
                part == self@.subrange(from as int, to as int),
                self.node(from as int, to as int, i as nat, l as int, r as int, ret as int),
                below(part, ret as int) + left == n,
                left < r - l,
                i < N ==> mask == pow2((N - 1 - i) as nat),
            decreases N - i,
        {
            let ghost p = pow2((N - 1 - i) as nat);
            proof {
                lemma_pow2_pos((N - 1 - i) as nat);
                lemma_pow2_unfold((N - i) as nat);
                lemma_within_split(part, 0, ret as int, ret + p);
                if i + 1 < N {
                    lemma_pow2_unfold((N - 1 - i) as nat);
                }
                lemma_level_len(self@, N as nat, (i + 1) as nat);
                vstd::arithmetic::power2::lemma2_to64_rest();
                if N < 64 {
                    vstd::arithmetic::power2::lemma_pow2_strictly_increases(N as nat, 64);
                }
            }
            let c = self.children(i, l, r);
            let count = c.0.1 - c.0.0;
            if count <= left {
                left = left - count;
                ret = ret + mask;
                l = c.1.0;
                r = c.1.1;
            } else {
                l = c.0.0;
                r = c.0.1;
            }
            mask = mask / 2;
            i += 1;
        }
        proof {
            vstd::arithmetic::power2::lemma2_to64();
            lemma_level_len(self@, N as nat, N as nat);
            lemma_within_split(part, 0, ret as int, ret + 1);
            assert(within(part, ret as int, ret + 1).len() == r - l);
        }
        ret
    }
}

/// How many of the first `upto` of `bits` are set, where `one` holds, or
/// not set, where it does not.
spec fn hits(bits: Seq<bool>, upto: int, one: bool) -> int {
    if one {
        ones(bits, upto) as int
    } else {
        upto - ones(bits, upto)
    }
}

/// There are no fewer hits in a longer part, and no more than places.
proof fn lemma_hits_bound(bits: Seq<bool>, from: int, upto: int, one: bool)
    requires
        0 <= from <= upto,
    ensures
        0 <= hits(bits, from, one) <= hits(bits, upto, one),
        hits(bits, upto, one) - hits(bits, from, one) <= upto - from,
{
    lemma_ones_bound(bits, from, upto);
    lemma_ones_bound(bits, 0, from);
}

impl Dict {
    /// The number of hits in front of the word `w`.
    fn before(&self, w: usize, one: bool) -> (r: usize)
        requires
            self.wf(),
            w <= self.raw@.len(),
        ensures
            r == hits(self@, if 64 * w <= self.size {
                64 * w
            } else {
                self.size as int
            }, one),
    {
        proof {
            self.lemma_total(64 * w);
            lemma_ones_bound(self@, 0, if 64 * w <= self.size {
                64 * w
            } else {
                self.size as int
            });
        }
        if one {
            self.sums[w]
        } else if w == self.raw.len() {
            self.size - self.sums[w]
        } else {
            64 * w - self.sums[w]
        }
    }

    /// The place of the bit that is set, where `one` holds, or not set,
    /// where it does not, and has `k` such bits in front of it; `None` where
    /// there are no more than `k` such bits.
    fn find(&self, k: usize, one: bool) -> (r: Option<usize>)
        requires
            self.wf(),
        ensures
            match r {
                Some(p) => p < self.size && self@[p as int] == one
                    && hits(self@, p as int, one) == k,
                None => k >= hits(self@, self.size as int, one),
            },
    {
        let words = self.raw.len();
        let all = self.before(words, one);
        if k >= all {
            return None;
        }
        proof {
            assert(hits(self@, 0, one) == 0);
        }
        let mut lo: usize = 0;
        let mut hi: usize = words;
        while hi - lo > 1
            invariant
                self.wf(),
                words == self.raw@.len(),
                lo < hi <= words,
                hits(self@, 64 * lo, one) <= k,
                64 * lo <= self.size,
                k < hits(self@, if 64 * hi <= self.size {
                    64 * hi
                } else {
                    self.size as int
                }, one),
            decreases hi - lo,
        {
            let mid = lo + (hi - lo) / 2;
            if self.before(mid, one) <= k {
                lo = mid;
            } else {
                hi = mid;
            }
        }
        let mut pos: usize = 64 * lo;
        let mut c: usize = self.before(lo, one);
        let ghost end = if 64 * hi <= self.size {
            64 * hi
        } else {
            self.size as int
        };
        while pos < self.size
            invariant
                self.wf(),
                pos <= end <= self.size,
                c == hits(self@, pos as int, one),
                c <= k,
                k < hits(self@, end, one),
            decreases self.size - pos,
        {
            proof {
                if pos == end {
                    assert(false);
                }
            }
            let b = self.get(pos);
            if b == one {
                if c == k {
                    return Some(pos);
                }
                c = c + 1;
            }
            pos = pos + 1;
        }
        proof {
            assert(pos == end);
            assert(false);
        }
        None
    }
}

/// What is within a range is in that range.
proof fn lemma_within_in(s: Seq<u64>, lo: int, hi: int, j: int)
    requires
        0 <= j < within(s, lo, hi).len(),
    ensures
        lo <= within(s, lo, hi)[j] < hi,
    decreases s.len(),
{
    if s.len() > 0 {
        let rest = within(s.drop_last(), lo, hi);
        if j < rest.len() {
            lemma_within_in(s.drop_last(), lo, hi, j);
        }
    }
}

/// A value occurs as often among the elements that have a digit of its own
/// as among all.
proof fn lemma_keep_occurrences(s: Seq<u64>, p: nat, v: u64)
    ensures
        occurrences(keep(s, p, high(v, p)), v as int) == occurrences(s, v as int),
    decreases s.len(),
{
    if s.len() > 0 {
        lemma_keep_occurrences(s.drop_last(), p, v);
        let x = s.last();
        let rest = keep(s.drop_last(), p, high(v, p));
        if high(x, p) == high(v, p) {
            assert(rest.push(x).drop_last() =~= rest);
            assert(rest.push(x).last() == x);
        }
    }
}

/// One step of the way up: the element at `at` of a row, whose digit is
/// that of `v`, stands in the next row where the elements in front of it
/// with that digit end; where that place holds `v`, so does `at`, and `v`
/// occurs as often from `a` up to `at` as in the next row between the
/// places that belong to the two.
proof fn lemma_up(s: Seq<u64>, p: nat, v: u64, a: int, at: int)
    requires
        0 <= a <= at < s.len(),
        high(s[at], p) == high(v, p),
    ensures
        ({
            let q = high(v, p);
            let base = if q {
                s.len() - ones(marks(s, p), s.len() as int)
            } else {
                0
            };
            let from = base + hits(marks(s, p), a, q);
            let to = base + hits(marks(s, p), at, q);
            &&& 0 <= from <= to < s.len()
            &&& parted(s, p)[to] == s[at]
            &&& occurrences(parted(s, p).subrange(from, to), v as int) == occurrences(s.subrange(a,
                at), v as int)
        }),
{
    let q = high(v, p);
    lemma_child(s, p, a, at, q);
    lemma_child(s, p, at, at + 1, q);
    lemma_parted_len(s, p);
    let one = s.subrange(at, at + 1);
    assert(one.drop_last() =~= Seq::<u64>::empty());
    assert(one.last() == s[at]);
    assert(keep(one, p, q) =~= seq![s[at]]);
    let base = if q {
        s.len() - ones(marks(s, p), s.len() as int)
    } else {
        0
    };
    let to = base + hits(marks(s, p), at, q);
    let next = base + hits(marks(s, p), at + 1, q);
    assert(parted(s, p).subrange(to, next).len() == 1);
    assert(parted(s, p).subrange(to, next)[0] == s[at]);
    lemma_keep_occurrences(s.subrange(a, at), p, v);
}

/// A bit with `k` hits in front of it stands between two places with no
/// more than `k` and with more than `k` hits in front of them.
proof fn lemma_hit_between(bits: Seq<bool>, one: bool, a: int, b: int, at: int)
    requires
        0 <= a <= b <= bits.len(),
        0 <= at < bits.len(),
        bits[at] == one,
        hits(bits, a, one) <= hits(bits, at, one) < hits(bits, b, one),
    ensures
        a <= at < b,
{
    if at < a {
        lemma_hits_bound(bits, at + 1, a, one);
    }
    if at >= b {
        lemma_hits_bound(bits, b, at, one);
    }
}

/// Where `v` occurs at `at` with `total` occurrences in front of it, of
/// which those in front of `left` are fewer by `count`, `at` is not in
/// front of `left`, and `v` occurs `count` times between the two.
proof fn lemma_select_at(src: Seq<u64>, v: u64, left: int, at: int, count: int, total: int)
    requires
        0 <= left <= src.len(),
        0 <= at < src.len(),
        0 <= count,
        src[at] == v,
        occurrences(src.subrange(0, at), v as int) == total,
        occurrences(src.subrange(0, left), v as int) + count == total,
    ensures
        left <= at,
        occurrences(src.subrange(left, at), v as int) == count,
{
    let before = src.subrange(0, at);
    let front = src.subrange(0, left);
    if at < left {
        let more = src.subrange(0, at + 1);
        let rest = src.subrange(at + 1, left);
        assert(front =~= more + rest);
        lemma_within_add(more, rest, v as int, v + 1);
        assert(more.drop_last() =~= before);
        assert(more.last() == v);
        assert(false);
    }
    let mid = src.subrange(left, at);
    assert(before =~= front + mid);
    lemma_within_add(front, mid, v as int, v + 1);
}

impl<const N: usize> WaveletMatrix<N> {
    /// The places `starts` and `ends` are, row by row, those between which
    /// the elements stand that begin with the digits of `v`.
    spec fn path(&self, v: u64, starts: Seq<int>, ends: Seq<int>) -> bool {
        &&& starts.len() == N + 1
        &&& ends.len() == N + 1
        &&& starts[0] == 0
        &&& forall|t: int| 0 <= t <= N ==> 0 <= #[trigger] starts[t] <= ends[t] <= self.2@.len()
        &&& forall|t: int|
            0 <= t < N ==> #[trigger] starts[t + 1] == self.down(
                t as nat,
                starts[t],
                high(v, pow2((N - 1 - t) as nat)),
            ) && ends[t + 1] == self.down(t as nat, ends[t], high(v, pow2((N - 1 - t) as nat)))
    }

    /// The way down for `v`: the places in the last row between which all
    /// occurrences of `v` stand, and between them the place where those in
    /// front of `left` end.
    fn way_down(&self, v: u64, left: usize) -> (r: (usize, usize, usize, Ghost<Seq<int>>,
        Ghost<Seq<int>>))
        requires
            self.wf(),
            left <= self@.len(),
            v < pow2(N as nat),
        ensures
            r.0 <= r.1 <= r.2 <= self@.len(),
            r.1 - r.0 == occurrences(self@.subrange(0, left as int), v as int),
            r.2 - r.0 == occurrences(self@, v as int),
            level(self@, N as nat, N as nat).subrange(r.0 as int, r.2 as int) == within(self@,
                v as int, v + 1),
            self.path(v, r.3@, r.4@),
            r.3@[N as int] == r.0,
            r.4@[N as int] == r.2,
    {
        let len = self.1;
        let ghost src = self@;
        let mut a: usize = 0;
        let mut m: usize = left;
        let mut b: usize = len;
        let mut mask = Self::top_mask();
        let mut i: usize = 0;
        let ghost mut lo: int = 0;
        let ghost mut starts: Seq<int> = seq![0int];
        let ghost mut ends: Seq<int> = seq![len as int];
        proof {
            self.lemma_root(0, left as int);
            self.lemma_root(0, len as int);
        }
        while i < N
            invariant
                self.wf(),
                src == self@,
                len == src.len(),
                i <= N,
                left <= len,
                v < pow2(N as nat),
                self.node(0, left as int, i as nat, a as int, m as int, lo),
                self.node(0, len as int, i as nat, a as int, b as int, lo),
                m <= b,
                lo <= v < lo + pow2((N - i) as nat),
                i < N ==> mask == pow2((N - 1 - i) as nat),
                starts.len() == i + 1,
                ends.len() == i + 1,
                starts[0] == 0,
                starts[i as int] == a,
                ends[i as int] == b,
                forall|t: int| 0 <= t <= i ==> 0 <= #[trigger] starts[t] <= ends[t] <= len,
                forall|t: int|
                    0 <= t < i ==> #[trigger] starts[t + 1] == self.down(
                        t as nat,
                        starts[t],
                        high(v, pow2((N - 1 - t) as nat)),
                    ) && ends[t + 1] == self.down(t as nat, ends[t], high(v,
                        pow2((N - 1 - t) as nat))),
            decreases N - i,
        {
            let ghost p = pow2((N - 1 - i) as nat);
            proof {
                lemma_pow2_pos((N - 1 - i) as nat);
                lemma_pow2_unfold((N - i) as nat);
                lemma_high(v, lo, p);
                if i + 1 < N {
                    lemma_pow2_unfold((N - 1 - i) as nat);
                }
                let s = level(src, N as nat, i as nat);
                lemma_level_len(src, N as nat, i as nat);
                lemma_ones_bound(marks(s, p), m as int, b as int);
            }
            let c1 = self.children(i, a, m);
            let c2 = self.children(i, a, b);
            let ghost old_starts = starts;
            let ghost old_ends = ends;
            if (v / mask) % 2 == 1 {
                a = c2.1.0;
                m = c1.1.1;
                b = c2.1.1;
                proof {
                    lo = lo + p;
                }
            } else {
                a = c2.0.0;
                m = c1.0.1;
                b = c2.0.1;
            }
            proof {
                starts = starts.push(a as int);
                ends = ends.push(b as int);
                assert forall|t: int| 0 <= t < i + 1 implies #[trigger] starts[t + 1] == self.down(
                    t as nat,
                    starts[t],
                    high(v, pow2((N - 1 - t) as nat)),
                ) && ends[t + 1] == self.down(t as nat, ends[t], high(v,
                    pow2((N - 1 - t) as nat))) by {
                    if t < i {
                        assert(starts[t + 1] == old_starts[t + 1] && starts[t] == old_starts[t]);
                        assert(ends[t + 1] == old_ends[t + 1] && ends[t] == old_ends[t]);
                    } else {
                        assert(starts[t] == old_starts[t] && ends[t] == old_ends[t]);
                    }
                }
                assert(0 <= a <= b <= len);
                assert forall|t: int| 0 <= t <= i + 1
                    implies 0 <= #[trigger] starts[t] <= ends[t] <= len by {
                    if t <= i {
                        assert(starts[t] == old_starts[t] && ends[t] == old_ends[t]);
                        assert(0 <= old_starts[t] <= old_ends[t] <= len);
                    } else {
                        assert(starts[t] == a && ends[t] == b);
                    }
                }
            }
            mask = mask / 2;
            i += 1;
        }
        proof {
            vstd::arithmetic::power2::lemma2_to64();
            lemma_level_len(src, N as nat, N as nat);
            assert(src.subrange(0, len as int) =~= src);
            assert(level(src, N as nat, N as nat).subrange(a as int, m as int).len() == m - a);
            assert(level(src, N as nat, N as nat).subrange(a as int, b as int).len() == b - a);
        }
        (a, m, b, Ghost(starts), Ghost(ends))
    }

    /// The way up for `v`: from a place of the last row that holds `v` to
    /// the place of the sequence that holds this occurrence.
    fn way_up(
        &self,
        v: u64,
        from: usize,
        Ghost(starts): Ghost<Seq<int>>,
        Ghost(ends): Ghost<Seq<int>>,
        Ghost(total): Ghost<int>,
    ) -> (at: usize)
        requires
            self.wf(),
            v < pow2(N as nat),
            self.path(v, starts, ends),
            starts[N as int] <= from < ends[N as int],
            level(self@, N as nat, N as nat)[from as int] == v,
            occurrences(level(self@, N as nat, N as nat).subrange(starts[N as int], from as int),
                v as int)
                == total,
        ensures
            at < self@.len(),
            self@[at as int] == v,
            occurrences(self@.subrange(0, at as int), v as int) == total,
    {
        let len = self.1;
        let ghost src = self@;
        let mut at = from;
        let mut i: usize = N;
        while i > 0
            invariant
                self.wf(),
                src == self@,
                len == src.len(),
                i <= N,
                v < pow2(N as nat),
                self.path(v, starts, ends),
                starts[i as int] <= at < ends[i as int],
                level(src, N as nat, i as nat)[at as int] == v,
                occurrences(level(src, N as nat, i as nat).subrange(starts[i as int], at as int),
                    v as int)
                    == total,
            decreases i,
        {
            let row = &self.0[i - 1];
            let ghost s = level(src, N as nat, (i - 1) as nat);
            let ghost p = pow2((N - i) as nat);
            let ghost q = high(v, p);
            let ghost sa = starts[i - 1];
            let ghost sb = ends[i - 1];
            proof {
                lemma_level_len(src, N as nat, (i - 1) as nat);
                lemma_level_len(src, N as nat, i as nat);
                lemma_pow2_pos((N - i) as nat);
                assert(row.wf() && row@ == marks(s, p));
                assert(row@.len() == s.len());
                assert(starts[(i - 1) + 1] == self.down((i - 1) as nat, sa, q));
                assert(ends[(i - 1) + 1] == self.down((i - 1) as nat, sb, q));
                assert(0 <= starts[i - 1] <= ends[i - 1] <= len);
                lemma_ones_bound(marks(s, p), 0, len as int);
                lemma_hits_bound(marks(s, p), sb, len as int, q);
                vstd::bits::lemma_u64_pow2_no_overflow((N - i) as nat);
                vstd::bits::lemma_u64_shl_is_mul(1, (N - i) as u64);
            }
            let weight: u64 = 1u64 << ((N - i) as u64);
            let one = (v / weight) % 2 == 1;
            let base = if one {
                len - row.count()
            } else {
                0
            };
            let found = row.find(at - base, one);
            match found {
                Some(up) => {
                    proof {
                        lemma_hit_between(marks(s, p), q, sa, sb, up as int);
                        lemma_up(s, p, v, sa, up as int);
                        assert(level(src, N as nat, i as nat) == parted(s, pow2((N - i) as nat)));
                    }
                    at = up;
                },
                None => {
                    proof {
                        assert(false);
                    }
                },
            }
            i -= 1;
        }
        at
    }

    /// The place of the occurrence of `val`, without its digits from `N` on,
    /// that has `count` occurrences between `left` and itself; `None` where
    /// there are no more than `count` occurrences from `left` on.
    pub fn select(&self, left: usize, val: u64, count: usize) -> (r: Option<usize>)
        requires
            self.wf(),
            left <= self@.len(),
        ensures
            match r {
                Some(at) => {
                    &&& left <= at < self@.len()
                    &&& self@[at as int] == val as nat % pow2(N as nat)
                    &&& occurrences(self@.subrange(left as int, at as int),
                        (val as nat % pow2(N as nat)) as int)
                        == count
                },
                None => occurrences(
                    self@.subrange(left as int, self@.len() as int),
                    (val as nat % pow2(N as nat)) as int,
                ) <= count,
            },
    {
        let v = Self::low(val);
        let ghost src = self@;
        let (a, m, b, starts, ends) = self.way_down(v, left);
        proof {
            let front = src.subrange(0, left as int);
            let back = src.subrange(left as int, src.len() as int);
            assert(src =~= front + back);
            lemma_within_add(front, back, v as int, v + 1);
        }
        if count >= b - m {
            return None;
        }
        let from = m + count;
        let ghost total = (m - a) + count;
        proof {
            let bottom = level(src, N as nat, N as nat);
            let part = bottom.subrange(a as int, from as int);
            lemma_level_len(src, N as nat, N as nat);
            assert(bottom.subrange(a as int, b as int).len() == b - a);
            assert forall|j: int| 0 <= j < part.len() implies v <= #[trigger] part[j] < v + 1 by {
                assert(part[j] == bottom.subrange(a as int, b as int)[j]);
                lemma_within_in(src, v as int, v + 1, j);
            }
            lemma_within_all(part, v as int, v + 1);
            assert(bottom[from as int] == bottom.subrange(a as int, b as int)[from - a]);
            lemma_within_in(src, v as int, v + 1, from - a);
        }
        let at = self.way_up(v, from, starts, ends, Ghost(total));
        proof {
            lemma_select_at(src, v, left as int, at as int, count as int, total);
        }
        Some(at)
    }
}

/// One end of a range of values.
#[derive(Clone, Copy)]
pub enum Edge {
    /// The range reaches this value and holds it.
    Included(u64),
    /// The range reaches this value and does not hold it.
    Excluded(u64),
    /// The range has no end on this side.
    Unbounded,
}

/// A range of values, given by its two ends.
pub trait ValueRange {
    /// Whether the two ends can be asked for: a range `a..=b` has them only
    /// as long as it has not been used up as an iterator.
    spec fn valid(&self) -> bool;

    /// The end at which the range starts.
    spec fn start_spec(&self) -> Edge;

    /// The end at which the range stops.
    spec fn end_spec(&self) -> Edge;

    fn start(&self) -> (r: Edge)
        requires
            self.valid(),
        ensures
            r == self.start_spec(),
    ;

    fn end(&self) -> (r: Edge)
        requires
            self.valid(),
        ensures
            r == self.end_spec(),
    ;
}

impl ValueRange for RangeInclusive<u64> {
    open spec fn valid(&self) -> bool {
        !self@.exhausted
    }

    open spec fn start_spec(&self) -> Edge {
        Edge::Included(self@.start)
    }

    open spec fn end_spec(&self) -> Edge {
        Edge::Included(self@.end)
    }

    fn start(&self) -> (r: Edge) {
        Edge::Included(inclusive_start(self))
    }

    fn end(&self) -> (r: Edge) {
        Edge::Included(inclusive_end(self))
    }
}

impl ValueRange for (Edge, Edge) {
    open spec fn valid(&self) -> bool {
        true
    }

    open spec fn start_spec(&self) -> Edge {
        self.0
    }

    open spec fn end_spec(&self) -> Edge {
        self.1
    }

    fn start(&self) -> (r: Edge) {
        self.0
    }

    fn end(&self) -> (r: Edge) {
        self.1
    }
}

impl ValueRange for Range<u64> {
    open spec fn valid(&self) -> bool {
        true
    }

    open spec fn start_spec(&self) -> Edge {
        Edge::Included(self.start)
    }

    open spec fn end_spec(&self) -> Edge {
        Edge::Excluded(self.end)
    }

    fn start(&self) -> (r: Edge) {
        Edge::Included(self.start)
    }

    fn end(&self) -> (r: Edge) {
        Edge::Excluded(self.end)
    }
}

impl ValueRange for RangeFull {
    open spec fn valid(&self) -> bool {
        true
    }

    open spec fn start_spec(&self) -> Edge {
        Edge::Unbounded
    }

    open spec fn end_spec(&self) -> Edge {
        Edge::Unbounded
    }

    fn start(&self) -> (r: Edge) {
        Edge::Unbounded
    }

    fn end(&self) -> (r: Edge) {
        Edge::Unbounded
    }
}

impl ValueRange for RangeFrom<u64> {
    open spec fn valid(&self) -> bool {
        true
    }

    open spec fn start_spec(&self) -> Edge {
        Edge::Included(self.start)
    }

    open spec fn end_spec(&self) -> Edge {
        Edge::Unbounded
    }

    fn start(&self) -> (r: Edge) {
        Edge::Included(self.start)
    }

    fn end(&self) -> (r: Edge) {
        Edge::Unbounded
    }
}

impl ValueRange for RangeTo<u64> {
    open spec fn valid(&self) -> bool {
        true
    }

    open spec fn start_spec(&self) -> Edge {
        Edge::Unbounded
    }

    open spec fn end_spec(&self) -> Edge {
        Edge::Excluded(self.end)
    }

    fn start(&self) -> (r: Edge) {
        Edge::Unbounded
    }

    fn end(&self) -> (r: Edge) {
        Edge::Excluded(self.end)
    }
}

impl ValueRange for RangeToInclusive<u64> {
    open spec fn valid(&self) -> bool {
        true
    }

    open spec fn start_spec(&self) -> Edge {
        Edge::Unbounded
    }

    open spec fn end_spec(&self) -> Edge {
        Edge::Included(self.end)
    }

    fn start(&self) -> (r: Edge) {
        Edge::Unbounded
    }

    fn end(&self) -> (r: Edge) {
        Edge::Included(self.end)
    }
}

/// The least value of `range`.
pub open spec fn value_lower<V: ValueRange>(range: &V) -> int {
    match range.start_spec() {
        Edge::Included(x) => x as int,
        Edge::Excluded(x) => x + 1,
        Edge::Unbounded => 0,
    }
}

/// The value behind the greatest one of `range`.
pub open spec fn value_upper<V: ValueRange>(range: &V) -> int {
    match range.end_spec() {
        Edge::Included(x) => x + 1,
        Edge::Excluded(x) => x as int,
        Edge::Unbounded => 0x1_0000_0000_0000_0000,
    }
}

/// The elements within a range that ends before it begins are none.
proof fn lemma_within_none(s: Seq<u64>, lo: int, hi: int)
    requires
        hi <= lo,
    ensures
        within(s, lo, hi).len() == 0,
{
    lemma_within_has(s, lo, hi);
}

impl<const N: usize> WaveletMatrix<N> {
    /// How many elements from `from` up to `to` are below `x`, or how many
    /// there are, where `x` is `None`.
    fn under(&self, x: Option<u64>, from: usize, to: usize) -> (r: usize)
        requires
            self.wf(),
            from <= to <= self@.len(),
        ensures
            r == below(
                self@.subrange(from as int, to as int),
                match x {
                    Some(x) => x as int,
                    None => 0x1_0000_0000_0000_0000,
                },
            ),
            r <= to - from,
    {
        let ghost part = self@.subrange(from as int, to as int);
        proof {
            vstd::arithmetic::power2::lemma2_to64_rest();
            if N < 64 {
                vstd::arithmetic::power2::lemma_pow2_strictly_increases(N as nat, 64);
                vstd::bits::lemma_u64_pow2_no_overflow(N as nat);
                vstd::bits::lemma_u64_shl_is_mul(1, N as u64);
            }
            assert forall|j: int| 0 <= j < part.len()
                implies 0 <= #[trigger] part[j] < pow2(N as nat) by {
                assert(self.2@[from + j] < pow2(N as nat));
            }
        }
        match x {
            Some(x) => {
                if N < 64 && x >= (1u64 << (N as u64)) {
                    proof {
                        assert forall|j: int| 0 <= j < part.len()
                            implies 0 <= #[trigger] part[j] < x by {
                            assert(part[j] < pow2(N as nat));
                        }
                        lemma_within_all(part, 0, x as int);
                    }
                    to - from
                } else {
                    self.count_below(x, from, to)
                }
            },
            None => {
                proof {
                    assert forall|j: int| 0 <= j < part.len() implies 0 <= #[trigger] part[j]
                        < 0x1_0000_0000_0000_0000 by {
                        assert(part[j] < pow2(N as nat));
                    }
                    lemma_within_all(part, 0, 0x1_0000_0000_0000_0000);
                }
                to - from
            },
        }
    }

    /// How many elements in the range `idxrange` of places have a value in
    /// `valrange`.
    pub fn rank_range<V: ValueRange, R: IndexRange>(&self, valrange: V, idxrange: R) -> (r: usize)
        requires
            self.wf(),
            valrange.valid(),
            range_within(&idxrange, self@.len() as int),
        ensures
            r == within(
                self@.subrange(range_lower(&idxrange), range_upper(&idxrange, self@.len() as int)),
                value_lower(&valrange),
                value_upper(&valrange),
            ).len(),
    {
        let (from, to) = normalize(&idxrange, self.1);
        let lo: Option<u64> = match valrange.start() {
            Edge::Unbounded => Some(0),
            Edge::Included(x) => Some(x),
            Edge::Excluded(x) => if x == u64::MAX {
                None
            } else {
                Some(x + 1)
            },
        };
        let hi: Option<u64> = match valrange.end() {
            Edge::Unbounded => None,
            Edge::Included(x) => if x == u64::MAX {
                None
            } else {
                Some(x + 1)
            },
            Edge::Excluded(x) => Some(x),
        };
        let under_lo = self.under(lo, from, to);
        let under_hi = self.under(hi, from, to);
        proof {
            let part = self@.subrange(from as int, to as int);
            let l = value_lower(&valrange);
            let h = value_upper(&valrange);
            if l <= h {
                lemma_within_split(part, 0, l, h);
            } else {
                lemma_within_none(part, l, h);
                lemma_within_split(part, 0, h, l);
            }
        }
        if under_hi >= under_lo {
            under_hi - under_lo
        } else {
            0
        }
    }
}

} // verus!
