//! An array whose clones share their elements: a clone costs one counter,
//! and writing to one of two clones copies only the path that is written.

use std::rc::Rc;
use vstd::arithmetic::power2::{
    lemma2_to64, lemma_pow2_pos, lemma_pow2_strictly_increases, lemma_pow2_unfold, pow2,
};
use vstd::prelude::*;

verus! {

/// A tree of elements. A relay of level `l` has `2^(l - 1)` elements on its
/// left, in a tree that is full, and at most as many on its right.
enum RawPersitentArray<T> {
    Value(T),
    Relay(u8, Rc<RawPersitentArray<T>>, Rc<RawPersitentArray<T>>),
}

impl<T> RawPersitentArray<T> {
    /// The elements, from left to right.
    spec fn seq(&self) -> Seq<T>
        decreases self,
    {
        match self {
            RawPersitentArray::Value(v) => seq![*v],
            RawPersitentArray::Relay(_, l, r) => l.seq() + r.seq(),
        }
    }

    /// Whether this is a full tree of `2^k` elements.
    spec fn full(&self, k: nat) -> bool
        decreases self,
    {
        match self {
            RawPersitentArray::Value(_) => k == 0,
            RawPersitentArray::Relay(level, l, r) => {
                &&& *level == k
                &&& k >= 1
                &&& l.full((k - 1) as nat)
                &&& r.full((k - 1) as nat)
            },
        }
    }

    /// Every relay has a full tree on its left, and no more on its right
    /// than on its left.
    spec fn shape(&self) -> bool
        decreases self,
    {
        match self {
            RawPersitentArray::Value(_) => true,
            RawPersitentArray::Relay(level, l, r) => {
                &&& *level >= 1
                &&& l.full((*level - 1) as nat)
                &&& r.shape()
                &&& r.seq().len() <= pow2((*level - 1) as nat)
            },
        }
    }

    proof fn lemma_full(&self, k: nat)
        requires
            self.full(k),
        ensures
            self.shape(),
            self.seq().len() == pow2(k),
        decreases self,
    {
        lemma2_to64();
        match self {
            RawPersitentArray::Value(_) => {},
            RawPersitentArray::Relay(level, l, r) => {
                l.lemma_full((k - 1) as nat);
                r.lemma_full((k - 1) as nat);
                lemma_pow2_unfold(k);
            },
        }
    }

    proof fn lemma_len(&self)
        requires
            self.shape(),
        ensures
            self.seq().len() >= 1,
        decreases self,
    {
        match self {
            RawPersitentArray::Value(_) => {},
            RawPersitentArray::Relay(level, l, r) => {
                r.lemma_len();
            },
        }
    }

    /// A tree of the right shape with `2^k` elements is full.
    proof fn lemma_full_by_len(&self, k: nat)
        requires
            self.shape(),
            self.seq().len() == pow2(k),
        ensures
            self.full(k),
        decreases self,
    {
        lemma2_to64();
        match self {
            RawPersitentArray::Value(_) => {
                if k > 0 {
                    lemma_pow2_strictly_increases(0, k);
                }
            },
            RawPersitentArray::Relay(level, l, r) => {
                let j = (*level - 1) as nat;
                l.lemma_full(j);
                r.lemma_len();
                // pow2(j) < len <= pow2(j + 1), so k == j + 1
                lemma_pow2_unfold(j + 1);
                if k <= j {
                    if k < j {
                        lemma_pow2_strictly_increases(k, j);
                    }
                } else if k > j + 1 {
                    lemma_pow2_strictly_increases(j + 1, k);
                }
                r.lemma_full_by_len(j);
            },
        }
    }

    /// `2^(level - 1)`: the number of elements on the left of a relay.
    fn half(level: u8, Ghost(bound): Ghost<nat>) -> (r: usize)
        requires
            level >= 1,
            pow2((level - 1) as nat) <= bound <= usize::MAX,
        ensures
            r == pow2((level - 1) as nat),
    {
        proof {
            lemma2_to64();
            if level > 64 {
                lemma_pow2_strictly_increases(64, (level - 1) as nat);
            }
            vstd::bits::lemma_u64_shl_is_mul(1, (level - 1) as u64);
        }
        (1u64 << (level - 1) as u64) as usize
    }

    fn level(&self) -> (r: u8)
        ensures
            r == match self {
                RawPersitentArray::Value(_) => 0u8,
                RawPersitentArray::Relay(level, _, _) => *level,
            },
    {
        match self {
            RawPersitentArray::Value(_) => 0,
            RawPersitentArray::Relay(level, _, _) => *level,
        }
    }

    /// Number of elements.
    fn len(&self) -> (r: usize)
        requires
            self.shape(),
            self.seq().len() <= usize::MAX,
        ensures
            r == self.seq().len(),
        decreases self,
    {
        match self {
            RawPersitentArray::Value(_) => 1,
            RawPersitentArray::Relay(level, l, r) => {
                proof {
                    l.lemma_full((*level - 1) as nat);
                }
                let half = Self::half(*level, Ghost(self.seq().len()));
                half + r.len()
            },
        }
    }

    /// The element at `index`.
    fn get(&self, index: usize) -> (r: &T)
        requires
            self.shape(),
            self.seq().len() <= usize::MAX,
            index < self.seq().len(),
        ensures
            *r == self.seq()[index as int],
        decreases self,
    {
        match self {
            RawPersitentArray::Value(v) => v,
            RawPersitentArray::Relay(level, l, r) => {
                proof {
                    l.lemma_full((*level - 1) as nat);
                }
                let half = Self::half(*level, Ghost(self.seq().len()));
                if index < half {
                    l.get(index)
                } else {
                    r.get(index - half)
                }
            },
        }
    }

    /// The parts of a relay: its own where `this` is the only handle, else
    /// further handles to the same children.
    fn into_parts(this: Rc<Self>) -> (r: (u8, Rc<Self>, Rc<Self>))
        requires
            *this is Relay,
        ensures
            *this == RawPersitentArray::Relay(r.0, r.1, r.2),
    {
        match Rc::try_unwrap(this) {
            Ok(node) => match node {
                RawPersitentArray::Relay(level, l, r) => (level, l, r),
                RawPersitentArray::Value(_) => {
                    vstd::pervasive::unreached()
                },
            },
            Err(shared) => match &*shared {
                RawPersitentArray::Relay(level, l, r) => (*level, l.clone(), r.clone()),
                RawPersitentArray::Value(_) => {
                    vstd::pervasive::unreached()
                },
            },
        }
    }

    /// The tree with `item` behind its last element.
    fn push(this: Rc<Self>, len: usize, item: T) -> (r: Rc<Self>)
        requires
            this.shape(),
            len == this.seq().len(),
            len < usize::MAX,
        ensures
            r.shape(),
            r.seq() == this.seq().push(item),
        decreases this,
    {
        proof {
            lemma2_to64();
        }
        let level = this.level();
        let whole: bool = match &*this {
            RawPersitentArray::Value(_) => true,
            RawPersitentArray::Relay(level, l, r) => {
                proof {
                    l.lemma_full((*level - 1) as nat);
                }
                let half = Self::half(*level, Ghost(len as nat));
                len - half == half
            },
        };
        if whole {
            proof {
                match &*this {
                    RawPersitentArray::Value(_) => {},
                    RawPersitentArray::Relay(level, l, r) => {
                        r.lemma_full_by_len((*level - 1) as nat);
                        lemma_pow2_unfold(*level as nat);
                        if *level >= 64 {
                            if *level > 64 {
                                lemma_pow2_strictly_increases(64, *level as nat);
                            }
                        }
                    },
                }
                this.lemma_full(level as nat);
            }
            let leaf = Rc::new(RawPersitentArray::Value(item));
            proof {
                assert(leaf.seq() =~= seq![item]);
                assert(leaf.shape());
                lemma_pow2_pos(level as nat);
            }
            let r = Rc::new(RawPersitentArray::Relay(level + 1, this, leaf));
            proof {
                assert(r.seq() =~= this.seq().push(item));
            }
            r
        } else {
            let ghost before = this.seq();
            let (level, l, r) = Self::into_parts(this);
            proof {
                l.lemma_full((level - 1) as nat);
            }
            let half = Self::half(level, Ghost(len as nat));
            let grown = Self::push(r, len - half, item);
            let out = Rc::new(RawPersitentArray::Relay(level, l, grown));
            proof {
                assert(out.seq() =~= before.push(item));
            }
            out
        }
    }

    /// The tree with `item` in place of the element at `index`.
    fn set(this: Rc<Self>, len: usize, index: usize, item: T) -> (r: Rc<Self>)
        requires
            this.shape(),
            len == this.seq().len(),
            index < len,
        ensures
            r.shape(),
            r.seq() == this.seq().update(index as int, item),
        decreases this,
    {
        let leaf: bool = match &*this {
            RawPersitentArray::Value(_) => true,
            RawPersitentArray::Relay(_, _, _) => false,
        };
        if leaf {
            let r = Rc::new(RawPersitentArray::Value(item));
            proof {
                assert(r.seq() =~= this.seq().update(index as int, item));
            }
            r
        } else {
            let ghost before = this.seq();
            let (level, l, r) = Self::into_parts(this);
            proof {
                l.lemma_full((level - 1) as nat);
            }
            let half = Self::half(level, Ghost(len as nat));
            if index < half {
                let changed = Self::set(l, half, index, item);
                proof {
                    changed.lemma_full_by_len((level - 1) as nat);
                }
                let out = Rc::new(RawPersitentArray::Relay(level, changed, r));
                proof {
                    assert(out.seq() =~= before.update(index as int, item));
                }
                out
            } else {
                let changed = Self::set(r, len - half, index - half, item);
                let out = Rc::new(RawPersitentArray::Relay(level, l, changed));
                proof {
                    assert(out.seq() =~= before.update(index as int, item));
                }
                out
            }
        }
    }

    /// The last element, and the tree without it: `None` if nothing is left.
    /// The element itself is handed out where `this` is the only handle to
    /// it, else a clone.
    fn pop(this: Rc<Self>) -> (r: (T, Option<Rc<Self>>)) where T: Clone
        requires
            this.shape(),
        ensures
            cloned::<T>(this.seq().last(), r.0),
            match r.1 {
                Some(rest) => rest.shape() && rest.seq() == this.seq().drop_last(),
                None => this.seq().len() == 1,
            },
        decreases this,
    {
        match Rc::try_unwrap(this) {
            Ok(node) => match node {
                RawPersitentArray::Value(v) => (v, None),
                RawPersitentArray::Relay(level, l, r) => {
                    proof {
                        r.lemma_len();
                        l.lemma_full((level - 1) as nat);
                    }
                    let (v, rest) = Self::pop(r);
                    match rest {
                        None => {
                            proof {
                                assert(l.seq() =~= (l.seq() + r.seq()).drop_last());
                            }
                            (v, Some(l))
                        },
                        Some(rest) => {
                            let out = Rc::new(RawPersitentArray::Relay(level, l, rest));
                            proof {
                                assert(out.seq() =~= (l.seq() + r.seq()).drop_last());
                            }
                            (v, Some(out))
                        },
                    }
                },
            },
            Err(shared) => match &*shared {
                RawPersitentArray::Value(v) => (v.clone(), None),
                RawPersitentArray::Relay(level, l, r) => {
                    proof {
                        r.lemma_len();
                        l.lemma_full((*level - 1) as nat);
                    }
                    let (v, rest) = Self::pop(r.clone());
                    match rest {
                        None => {
                            proof {
                                assert(l.seq() =~= (l.seq() + r.seq()).drop_last());
                            }
                            (v, Some(l.clone()))
                        },
                        Some(rest) => {
                            let out = Rc::new(RawPersitentArray::Relay(*level, l.clone(), rest));
                            proof {
                                assert(out.seq() =~= (l.seq() + r.seq()).drop_last());
                            }
                            (v, Some(out))
                        },
                    }
                },
            },
        }
    }
}

/// An array that is cloned in constant time.
pub struct PersistentArray<T>(Option<Rc<RawPersitentArray<T>>>);

impl<T> View for PersistentArray<T> {
    type V = Seq<T>;

    /// The elements, in order.
    closed spec fn view(&self) -> Seq<T> {
        match self.0 {
            Some(node) => node.seq(),
            None => Seq::empty(),
        }
    }
}

impl<T> Clone for PersistentArray<T> {
    /// A second array with the same elements. Nothing is copied but the
    /// handle of the root.
    fn clone(&self) -> (r: Self)
        ensures
            r@ == self@,
            r.wf() == self.wf(),
    {
        match &self.0 {
            Some(rc) => PersistentArray(Some(rc.clone())),
            None => PersistentArray(None),
        }
    }
}

impl<T> PersistentArray<T> {
    /// The tree has the shape that `push` gives it, and its length fits a
    /// `usize`.
    pub closed spec fn wf(&self) -> bool {
        match self.0 {
            Some(node) => node.shape() && node.seq().len() <= usize::MAX,
            None => true,
        }
    }

    /// The empty array.
    pub fn new() -> (r: Self)
        ensures
            r.wf(),
            r@ == Seq::<T>::empty(),
    {
        PersistentArray(None)
    }

    /// Whether there is no element.
    pub fn is_empty(&self) -> (r: bool)
        requires
            self.wf(),
        ensures
            r == (self@.len() == 0),
    {
        proof {
            if self.0.is_some() {
                self.0.unwrap().lemma_len();
            }
        }
        self.0.is_none()
    }

    /// Number of elements.
    pub fn len(&self) -> (r: usize)
        requires
            self.wf(),
        ensures
            r == self@.len(),
    {
        match &self.0 {
            Some(node) => node.len(),
            None => 0,
        }
    }

    /// Puts `item` behind the last element.
    pub fn push(&mut self, item: T)
        requires
            old(self).wf(),
            old(self)@.len() < usize::MAX,
        ensures
            final(self).wf(),
            final(self)@ == old(self)@.push(item),
    {
        let len = self.len();
        match self.0.take() {
            Some(node) => {
                self.0 = Some(RawPersitentArray::push(node, len, item));
            },
            None => {
                self.0 = Some(Rc::new(RawPersitentArray::Value(item)));
                assert(seq![item] =~= Seq::<T>::empty().push(item));
            },
        }
    }

    /// Takes the last element off, if there is one. Where another array
    /// still shares the element, a clone of it is returned.
    pub fn pop(&mut self) -> (r: Option<T>) where T: Clone
        requires
            old(self).wf(),
        ensures
            final(self).wf(),
            match r {
                Some(v) => {
                    &&& old(self)@.len() > 0
                    &&& cloned::<T>(old(self)@.last(), v)
                    &&& final(self)@ == old(self)@.drop_last()
                },
                None => old(self)@.len() == 0 && final(self)@ == old(self)@,
            },
    {
        match self.0.take() {
            Some(node) => {
                proof {
                    node.lemma_len();
                }
                let (v, rest) = RawPersitentArray::pop(node);
                self.0 = rest;
                proof {
                    if rest.is_none() {
                        assert(node.seq().drop_last() =~= Seq::<T>::empty());
                    }
                }
                Some(v)
            },
            None => None,
        }
    }

    /// The element at `index`.
    pub fn get(&self, index: usize) -> (r: &T)
        requires
            self.wf(),
            index < self@.len(),
        ensures
            *r == self@[index as int],
    {
        match &self.0 {
            Some(node) => node.get(index),
            None => vstd::pervasive::unreached(),
        }
    }

    /// Puts `item` in place of the element at `index`.
    pub fn set(&mut self, index: usize, item: T)
        requires
            old(self).wf(),
            index < old(self)@.len(),
        ensures
            final(self).wf(),
            final(self)@ == old(self)@.update(index as int, item),
    {
        let len = self.len();
        match self.0.take() {
            Some(node) => {
                self.0 = Some(RawPersitentArray::set(node, len, index, item));
            },
            None => {},
        }
    }
}

} // verus!
