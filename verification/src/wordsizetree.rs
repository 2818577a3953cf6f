//! Sets of small numbers kept bit by bit, in layers of 64-bit words: a word
//! of a higher layer tells which words of the layer below are not empty.

use vstd::prelude::*;
use vstd::std_specs::bits::{axiom_u64_trailing_zeros, u64_trailing_zeros};

verus! {

/// The word and the bit of an index.
fn mask_split(i: usize) -> (r: (usize, usize))
    ensures
        r.0 == i / 64,
        r.1 == i % 64,
{
    assert(i >> 6 == i / 64) by (bit_vector);
    assert(i & 63 == i % 64) by (bit_vector);
    (i >> 6, i & 63)
}

/// A set of numbers below a fixed bound.
pub trait MSet: Sized {
    /// The bound: every number in the set is below it.
    spec fn cap() -> nat;

    /// What has to hold of the structure.
    spec fn wf(&self) -> bool;

    /// Whether `i` is in the set.
    spec fn holds(&self, i: int) -> bool;

    /// Whether the numbers of the type fit: its bound and those of its
    /// parts are what the layers need and small enough.
    spec fn valid() -> bool;

    /// The empty set.
    fn empty() -> (r: Self)
        requires
            Self::valid(),
        ensures
            r.wf(),
            forall|i: int| !#[trigger] r.holds(i),
    ;

    /// Puts `index` into the set.
    fn add(&mut self, index: usize)
        requires
            old(self).wf(),
            index < Self::cap(),
        ensures
            final(self).wf(),
            forall|i: int| #[trigger] final(self).holds(i) == (i == index || old(self).holds(i)),
    ;

    /// Takes `index` out of the set.
    fn delete(&mut self, index: usize)
        requires
            old(self).wf(),
            index < Self::cap(),
        ensures
            final(self).wf(),
            forall|i: int| #[trigger] final(self).holds(i) == (i != index && old(self).holds(i)),
    ;

    /// Whether `index` is in the set.
    fn has(&self, index: usize) -> (r: bool)
        requires
            self.wf(),
            index < Self::cap(),
        ensures
            r == self.holds(index as int),
    ;

    /// Whether the set is empty.
    fn is_empty(&self) -> (r: bool)
        requires
            self.wf(),
        ensures
            r == (forall|i: int| !#[trigger] self.holds(i)),
    ;

    /// The least number in the set, which must not be empty.
    fn min(&self) -> (r: usize)
        requires
            self.wf(),
            exists|i: int| #[trigger] self.holds(i),
        ensures
            r < Self::cap(),
            self.holds(r as int),
            forall|i: int| #[trigger] self.holds(i) ==> r <= i,
    ;

    /// Every number in the set is below the bound.
    proof fn in_range(&self, i: int)
        requires
            self.wf(),
            self.holds(i),
        ensures
            0 <= i < Self::cap(),
    ;
}

/// A set of numbers below 64, one bit for each.
pub struct WordSet(pub u64);

/// Whether bit `i` of `x` is set.
pub open spec fn bit(x: u64, i: int) -> bool {
    0 <= i < 64 && (x >> (i as u64)) & 1 == 1
}

impl MSet for WordSet {
    open spec fn cap() -> nat {
        64
    }

    open spec fn wf(&self) -> bool {
        true
    }

    open spec fn valid() -> bool {
        true
    }

    open spec fn holds(&self, i: int) -> bool {
        bit(self.0, i)
    }

    fn empty() -> (r: Self) {
        proof {
            assert forall|i: int| !#[trigger] bit(0, i) by {
                if 0 <= i < 64 {
                    let s = i as u64;
                    assert((0u64 >> s) & 1 == 0) by (bit_vector);
                }
            }
        }
        WordSet(0)
    }

    fn add(&mut self, index: usize) {
        let ghost x = self.0;
        let shift = index as u64;
        self.0 = self.0 | (1u64 << shift);
        proof {
            let y = self.0;
            assert forall|i: int| #[trigger] bit(y, i) == (i == index || bit(x, i)) by {
                if 0 <= i < 64 {
                    let s = i as u64;
                    assert(((y >> s) & 1 == 1) == (s == shift || (x >> s) & 1 == 1)) by (bit_vector)
                        requires
                            y == x | (1u64 << shift),
                            shift < 64,
                            s < 64,
                    ;
                }
            }
        }
    }

    fn delete(&mut self, index: usize) {
        let ghost x = self.0;
        let shift = index as u64;
        self.0 = self.0 & !(1u64 << shift);
        proof {
            let y = self.0;
            assert forall|i: int| #[trigger] bit(y, i) == (i != index && bit(x, i)) by {
                if 0 <= i < 64 {
                    let s = i as u64;
                    assert(((y >> s) & 1 == 1) == (s != shift && (x >> s) & 1 == 1)) by (bit_vector)
                        requires
                            y == x & !(1u64 << shift),
                            shift < 64,
                            s < 64,
                    ;
                }
            }
        }
    }

    fn has(&self, index: usize) -> (r: bool) {
        (self.0 >> (index as u64)) & 1 == 1
    }

    fn is_empty(&self) -> (r: bool) {
        proof {
            let x = self.0;
            axiom_u64_trailing_zeros(x);
            if x == 0 {
                assert forall|i: int| !#[trigger] self.holds(i) by {
                    if 0 <= i < 64 {
                        let s = i as u64;
                        assert((0u64 >> s) & 1 == 0) by (bit_vector);
                    }
                }
            } else {
                assert(self.holds(u64_trailing_zeros(x) as int));
            }
        }
        self.0 == 0
    }

    fn min(&self) -> (r: usize) {
        proof {
            let x = self.0;
            axiom_u64_trailing_zeros(x);
            let w = choose|i: int| #[trigger] self.holds(i);
            if x == 0 {
                let s = w as u64;
                assert((0u64 >> s) & 1 == 0) by (bit_vector);
            }
            let tz = u64_trailing_zeros(x);
            assert forall|i: int| #[trigger] self.holds(i) implies tz <= i by {
                if i < tz {
                    let s = i as u64;
                    assert((x >> s) & 1 == 0);
                }
            }
        }
        self.0.trailing_zeros() as usize
    }

    proof fn in_range(&self, i: int) {
    }
}

/// A set of numbers below `64 * N`: `N` words, and the set of the words
/// that are not empty.
pub struct Layer<const N: usize, T: MSet>(pub Vec<WordSet>, pub T);

impl<const N: usize, T: MSet> MSet for Layer<N, T> {
    open spec fn cap() -> nat {
        (N * 64) as nat
    }

    open spec fn valid() -> bool {
        &&& N <= 0x400_0000
        &&& T::cap() == N
        &&& T::valid()
    }

    open spec fn wf(&self) -> bool {
        &&& Self::valid()
        &&& self.0@.len() == N
        &&& self.1.wf()
        &&& forall|w: int|
            0 <= w < N ==> (#[trigger] self.1.holds(w) <==> exists|j: int| #[trigger]
                self.0@[w].holds(j))
    }

    open spec fn holds(&self, i: int) -> bool {
        0 <= i < N * 64 && self.0@[i / 64].holds(i % 64)
    }

    fn empty() -> (r: Self) {
        let mut words: Vec<WordSet> = Vec::new();
        let mut i: usize = 0;
        while i < N
            invariant
                i <= N,
                words@.len() == i,
                forall|w: int, j: int| 0 <= w < i ==> !#[trigger] words@[w].holds(j),
            decreases N - i,
        {
            words.push(WordSet::empty());
            i += 1;
        }
        let r = Layer(words, T::empty());
        proof {
            assert forall|w: int| 0 <= w < N implies (#[trigger] r.1.holds(w)
                <==> exists|j: int| #[trigger]
                r.0@[w].holds(j)) by {
            }
        }
        r
    }

    fn add(&mut self, index: usize) {
        let (i, j) = mask_split(index);
        let ghost before = *self;
        self.0[i].add(j);
        self.1.add(i);
        proof {
            assert(self.0@[i as int].holds(j as int));
            assert forall|w: int| 0 <= w < N implies (#[trigger] self.1.holds(w) <==> exists|
                k: int,
            | #[trigger]
                self.0@[w].holds(k)) by {
                if w != i {
                    assert(self.0@[w] == before.0@[w]);
                    assert(before.1.holds(w) <==> exists|k: int| #[trigger] before.0@[w].holds(k));
                }
            }
            assert forall|x: int| #[trigger] self.holds(x) == (x == index || before.holds(x)) by {
                if 0 <= x < N * 64 {
                    if x / 64 != i {
                        assert(self.0@[x / 64] == before.0@[x / 64]);
                    }
                }
            }
        }
    }

    fn delete(&mut self, index: usize) {
        let (i, j) = mask_split(index);
        let ghost before = *self;
        self.0[i].delete(j);
        if self.0[i].is_empty() {
            self.1.delete(i);
        }
        proof {
            assert forall|w: int| 0 <= w < N implies (#[trigger] self.1.holds(w) <==> exists|
                k: int,
            | #[trigger]
                self.0@[w].holds(k)) by {
                if w != i {
                    assert(self.0@[w] == before.0@[w]);
                    assert(before.1.holds(w) <==> exists|k: int| #[trigger] before.0@[w].holds(k));
                } else {
                    if exists|k: int| #[trigger] self.0@[w].holds(k) {
                        let k = choose|k: int| #[trigger] self.0@[w].holds(k);
                        assert(before.0@[w].holds(k));
                        assert(before.1.holds(w));
                    }
                }
            }
            assert forall|x: int| #[trigger] self.holds(x) == (x != index && before.holds(x)) by {
                if 0 <= x < N * 64 {
                    if x / 64 != i {
                        assert(self.0@[x / 64] == before.0@[x / 64]);
                    }
                }
            }
        }
    }

    fn has(&self, index: usize) -> (r: bool) {
        let (i, j) = mask_split(index);
        self.0[i].has(j)
    }

    fn is_empty(&self) -> (r: bool) {
        let r = self.1.is_empty();
        proof {
            if r {
                assert forall|x: int| !#[trigger] self.holds(x) by {
                    if self.holds(x) {
                        assert(self.0@[x / 64].holds(x % 64));
                        assert(self.1.holds(x / 64));
                    }
                }
            } else {
                let w = choose|w: int| #[trigger] self.1.holds(w);
                self.1.in_range(w);
                let k = choose|k: int| #[trigger] self.0@[w].holds(k);
                self.0@[w].in_range(k);
                assert(self.holds(w * 64 + k));
            }
        }
        r
    }

    fn min(&self) -> (r: usize) {
        proof {
            let x = choose|x: int| #[trigger] self.holds(x);
            assert(self.0@[x / 64].holds(x % 64));
            assert(self.1.holds(x / 64));
        }
        let v = self.1.min();
        proof {
            assert(exists|k: int| #[trigger] self.0@[v as int].holds(k));
        }
        let low = self.0[v].min();
        proof {
            assert((v << 6) == v * 64 && (low | (v << 6)) == v * 64 + low) by (bit_vector)
                requires
                    v < 0x400_0000,
                    low < 64,
            ;
            assert forall|x: int| #[trigger] self.holds(x) implies v * 64 + low <= x by {
                assert(self.0@[x / 64].holds(x % 64));
                assert(self.1.holds(x / 64));
                if x / 64 == v {
                }
            }
        }
        low | (v << 6)
    }

    proof fn in_range(&self, i: int) {
    }
}

/// A set of numbers from 0 to 262143.
pub struct WordSizeTree18(Layer<4096, Layer<64, WordSet>>);

impl WordSizeTree18 {
    /// Whether `i` is in the set.
    pub closed spec fn holds(&self, i: int) -> bool {
        self.0.holds(i)
    }

    /// What has to hold of the structure.
    pub closed spec fn wf(&self) -> bool {
        self.0.wf()
    }

    /// The empty set.
    pub fn new() -> (r: Box<Self>)
        ensures
            r.wf(),
            forall|i: int| !#[trigger] r.holds(i),
    {
        Box::new(WordSizeTree18(Layer::empty()))
    }

    /// Puts `index` into the set.
    pub fn add(&mut self, index: usize)
        requires
            old(self).wf(),
            index < 262144,
        ensures
            final(self).wf(),
            forall|i: int| #[trigger] final(self).holds(i) == (i == index || old(self).holds(i)),
    {
        self.0.add(index);
    }

    /// Takes `index` out of the set.
    pub fn delete(&mut self, index: usize)
        requires
            old(self).wf(),
            index < 262144,
        ensures
            final(self).wf(),
            forall|i: int| #[trigger] final(self).holds(i) == (i != index && old(self).holds(i)),
    {
        self.0.delete(index);
    }

    /// Whether `index` is in the set.
    pub fn has(&self, index: usize) -> (r: bool)
        requires
            self.wf(),
            index < 262144,
        ensures
            r == self.holds(index as int),
    {
        self.0.has(index)
    }

    /// Whether the set is empty.
    pub fn is_empty(&self) -> (r: bool)
        requires
            self.wf(),
        ensures
            r == (forall|i: int| !#[trigger] self.holds(i)),
    {
        let r = self.0.is_empty();
        proof {
            if r {
                assert forall|i: int| !#[trigger] self.holds(i) by {
                    assert(!self.0.holds(i));
                }
            } else {
                let i = choose|i: int| #[trigger] self.0.holds(i);
                assert(self.holds(i));
            }
        }
        r
    }

    /// The least number in the set, if it is not empty.
    pub fn min(&self) -> (r: Option<usize>)
        requires
            self.wf(),
        ensures
            match r {
                Some(m) => self.holds(m as int) && forall|i: int| #[trigger] self.holds(i)
                    ==> m <= i,
                None => forall|i: int| !#[trigger] self.holds(i),
            },
    {
        if self.0.is_empty() {
            None
        } else {
            Some(self.0.min())
        }
    }
}

/// A set of numbers from 0 to 16777215.
pub struct WordSizeTree24(Layer<262144, Layer<4096, Layer<64, WordSet>>>);

impl WordSizeTree24 {
    /// Whether `i` is in the set.
    pub closed spec fn holds(&self, i: int) -> bool {
        self.0.holds(i)
    }

    /// What has to hold of the structure.
    pub closed spec fn wf(&self) -> bool {
        self.0.wf()
    }

    /// The empty set.
    pub fn new() -> (r: Box<Self>)
        ensures
            r.wf(),
            forall|i: int| !#[trigger] r.holds(i),
    {
        Box::new(WordSizeTree24(Layer::empty()))
    }

    /// Puts `index` into the set.
    pub fn add(&mut self, index: usize)
        requires
            old(self).wf(),
            index < 16777216,
        ensures
            final(self).wf(),
            forall|i: int| #[trigger] final(self).holds(i) == (i == index || old(self).holds(i)),
    {
        self.0.add(index);
    }

    /// Takes `index` out of the set.
    pub fn delete(&mut self, index: usize)
        requires
            old(self).wf(),
            index < 16777216,
        ensures
            final(self).wf(),
            forall|i: int| #[trigger] final(self).holds(i) == (i != index && old(self).holds(i)),
    {
        self.0.delete(index);
    }

    /// Whether `index` is in the set.
    pub fn has(&self, index: usize) -> (r: bool)
        requires
            self.wf(),
            index < 16777216,
        ensures
            r == self.holds(index as int),
    {
        self.0.has(index)
    }

    /// Whether the set is empty.
    pub fn is_empty(&self) -> (r: bool)
        requires
            self.wf(),
        ensures
            r == (forall|i: int| !#[trigger] self.holds(i)),
    {
        let r = self.0.is_empty();
        proof {
            if r {
                assert forall|i: int| !#[trigger] self.holds(i) by {
                    assert(!self.0.holds(i));
                }
            } else {
                let i = choose|i: int| #[trigger] self.0.holds(i);
                assert(self.holds(i));
            }
        }
        r
    }

    /// The least number in the set, if it is not empty.
    pub fn min(&self) -> (r: Option<usize>)
        requires
            self.wf(),
        ensures
            match r {
                Some(m) => self.holds(m as int) && forall|i: int| #[trigger] self.holds(i)
                    ==> m <= i,
                None => forall|i: int| !#[trigger] self.holds(i),
            },
    {
        if self.0.is_empty() {
            None
        } else {
            Some(self.0.min())
        }
    }
}

} // verus!
