//! A segment tree whose clones share their nodes: a clone costs one counter,
//! and writing to one of two clones copies only the path that is written.

use crate::segmenttree::Monoid;
use crate::util::{
    fold_op, lemma_fold_op_concat, lemma_fold_op_one, normalize, range_lower, range_upper,
    range_within, IndexRange,
};
use std::rc::Rc;
use vstd::arithmetic::power2::{
    lemma2_to64, lemma_pow2_pos, lemma_pow2_strictly_increases, lemma_pow2_unfold, pow2,
};
use vstd::prelude::*;

verus! {

/// A tree of elements. A relay of level `l` has `2^(l - 1)` elements on its
/// left, in a tree that is full, and at most as many on its right; it keeps
/// the product of all elements below it.
enum RawPersistentSegmentTree<M: Monoid> {
    Value(M::T),
    Relay(u8, M::T, Rc<RawPersistentSegmentTree<M>>, Rc<RawPersistentSegmentTree<M>>),
}

impl<M: Monoid> RawPersistentSegmentTree<M> {
    /// The elements, from left to right.
    spec fn seq(&self) -> Seq<M::T>
        decreases self,
    {
        match self {
            RawPersistentSegmentTree::Value(v) => seq![*v],
            RawPersistentSegmentTree::Relay(_, _, l, r) => l.seq() + r.seq(),
        }
    }

    /// The product that the node keeps.
    spec fn kept(&self) -> M::T {
        match self {
            RawPersistentSegmentTree::Value(v) => *v,
            RawPersistentSegmentTree::Relay(_, v, _, _) => *v,
        }
    }

    /// Whether this is a full tree of `2^k` elements.
    spec fn full(&self, m: &M, k: nat) -> bool
        decreases self,
    {
        match self {
            RawPersistentSegmentTree::Value(_) => k == 0,
            RawPersistentSegmentTree::Relay(level, v, l, r) => {
                &&& *level == k
                &&& k >= 1
                &&& l.full(m, (k - 1) as nat)
                &&& r.full(m, (k - 1) as nat)
                &&& *v == m.op_spec(l.kept(), r.kept())
            },
        }
    }

    /// Every relay has a full tree on its left, no more on its right than
    /// on its left, and keeps the product of its two children.
    spec fn shape(&self, m: &M) -> bool
        decreases self,
    {
        match self {
            RawPersistentSegmentTree::Value(_) => true,
            RawPersistentSegmentTree::Relay(level, v, l, r) => {
                &&& *level >= 1
                &&& l.full(m, (*level - 1) as nat)
                &&& r.shape(m)
                &&& r.seq().len() <= pow2((*level - 1) as nat)
                &&& *v == m.op_spec(l.kept(), r.kept())
            },
        }
    }

    proof fn lemma_full(&self, m: &M, k: nat)
        requires
            self.full(m, k),
        ensures
            self.shape(m),
            self.seq().len() == pow2(k),
        decreases self,
    {
        lemma2_to64();
        match self {
            RawPersistentSegmentTree::Value(_) => {},
            RawPersistentSegmentTree::Relay(level, _, l, r) => {
                l.lemma_full(m, (k - 1) as nat);
                r.lemma_full(m, (k - 1) as nat);
                lemma_pow2_unfold(k);
            },
        }
    }

    /// A node keeps the product of its elements, and has at least one.
    proof fn lemma_kept(&self, m: &M)
        requires
            self.shape(m),
        ensures
            self.seq().len() >= 1,
            self.kept() == fold_op(m, self.seq()),
        decreases self,
    {
        match self {
            RawPersistentSegmentTree::Value(v) => {
                lemma_fold_op_one(m, *v);
            },
            RawPersistentSegmentTree::Relay(level, _, l, r) => {
                l.lemma_full(m, (*level - 1) as nat);
                l.lemma_kept(m);
                r.lemma_kept(m);
                lemma_fold_op_concat(m, l.seq(), r.seq());
            },
        }
    }

    /// A tree of the right shape with `2^k` elements is full.
    proof fn lemma_full_by_len(&self, m: &M, k: nat)
        requires
            self.shape(m),
            self.seq().len() == pow2(k),
        ensures
            self.full(m, k),
        decreases self,
    {
        lemma2_to64();
        match self {
            RawPersistentSegmentTree::Value(_) => {
                if k > 0 {
                    lemma_pow2_strictly_increases(0, k);
                }
            },
            RawPersistentSegmentTree::Relay(level, _, l, r) => {
                let j = (*level - 1) as nat;
                l.lemma_full(m, j);
                r.lemma_kept(m);
                lemma_pow2_unfold(j + 1);
                if k <= j {
                    if k < j {
                        lemma_pow2_strictly_increases(k, j);
                    }
                } else if k > j + 1 {
                    lemma_pow2_strictly_increases(j + 1, k);
                }
                r.lemma_full_by_len(m, j);
            },
        }
    }

    /// `2^(level - 1)`: the number of elements on the left of a relay.
    fn half(level: u8, Ghost(bound): Ghost<nat>) -> (r: usize)
        requires
            level >= 1,
            pow2((level - 1) as nat) <= bound <= usize::MAX,
        ensures
            r == pow2((level - 1) as nat),
    {
        proof {
            lemma2_to64();
            if level > 64 {
                lemma_pow2_strictly_increases(64, (level - 1) as nat);
            }
            vstd::bits::lemma_u64_shl_is_mul(1, (level - 1) as u64);
        }
        (1u64 << (level - 1) as u64) as usize
    }

    fn level(&self) -> (r: u8)
        ensures
            r == match self {
                RawPersistentSegmentTree::Value(_) => 0u8,
                RawPersistentSegmentTree::Relay(level, _, _, _) => *level,
            },
    {
        match self {
            RawPersistentSegmentTree::Value(_) => 0,
            RawPersistentSegmentTree::Relay(level, _, _, _) => *level,
        }
    }

    /// The product that the node keeps.
    fn val(&self) -> (r: &M::T)
        ensures
            *r == self.kept(),
    {
        match self {
            RawPersistentSegmentTree::Value(v) => v,
            RawPersistentSegmentTree::Relay(_, v, _, _) => v,
        }
    }

    /// Number of elements.
    fn len(&self, Ghost(m): Ghost<&M>) -> (r: usize)
        requires
            self.shape(m),
            self.seq().len() <= usize::MAX,
        ensures
            r == self.seq().len(),
        decreases self,
    {
        match self {
            RawPersistentSegmentTree::Value(_) => 1,
            RawPersistentSegmentTree::Relay(level, _, l, r) => {
                proof {
                    l.lemma_full(m, (*level - 1) as nat);
                }
                let half = Self::half(*level, Ghost(self.seq().len()));
                half + r.len(Ghost(m))
            },
        }
    }

    /// The children of a relay: its own where `this` is the only handle,
    /// else further handles to the same children.
    fn into_parts(this: Rc<Self>) -> (parts: (u8, Rc<Self>, Rc<Self>))
        requires
            *this is Relay,
        ensures
            *this matches RawPersistentSegmentTree::Relay(level, _, l, r) && level == parts.0 && l
                == parts.1 && r == parts.2,
    {
        match Rc::try_unwrap(this) {
            Ok(node) => match node {
                RawPersistentSegmentTree::Relay(level, _, l, r) => (level, l, r),
                RawPersistentSegmentTree::Value(_) => vstd::pervasive::unreached(),
            },
            Err(shared) => match &*shared {
                RawPersistentSegmentTree::Relay(level, _, l, r) => (*level, l.clone(), r.clone()),
                RawPersistentSegmentTree::Value(_) => vstd::pervasive::unreached(),
            },
        }
    }

    /// The tree with `item` behind its last element.
    fn push(this: Rc<Self>, len: usize, item: M::T, monoid: &M) -> (r: Rc<Self>)
        requires
            this.shape(monoid),
            len == this.seq().len(),
            len < usize::MAX,
        ensures
            r.shape(monoid),
            r.seq() == this.seq().push(item),
        decreases this,
    {
        proof {
            lemma2_to64();
        }
        let level = this.level();
        let whole: bool = match &*this {
            RawPersistentSegmentTree::Value(_) => true,
            RawPersistentSegmentTree::Relay(level, _, l, r) => {
                proof {
                    l.lemma_full(monoid, (*level - 1) as nat);
                }
                let half = Self::half(*level, Ghost(len as nat));
                len - half == half
            },
        };
        if whole {
            proof {
                match &*this {
                    RawPersistentSegmentTree::Value(_) => {},
                    RawPersistentSegmentTree::Relay(level, _, l, r) => {
                        r.lemma_full_by_len(monoid, (*level - 1) as nat);
                        lemma_pow2_unfold(*level as nat);
                        if *level >= 64 {
                            if *level > 64 {
                                lemma_pow2_strictly_increases(64, *level as nat);
                            }
                        }
                    },
                }
                this.lemma_full(monoid, level as nat);
            }
            let both = monoid.op(this.val(), &item);
            let leaf = Rc::new(RawPersistentSegmentTree::Value(item));
            proof {
                assert(leaf.seq() =~= seq![item]);
                assert(leaf.shape(monoid));
                lemma_pow2_pos(level as nat);
            }
            let r = Rc::new(RawPersistentSegmentTree::Relay(level + 1, both, this, leaf));
            proof {
                assert(r.seq() =~= this.seq().push(item));
            }
            r
        } else {
            let ghost before = this.seq();
            let (level, l, r) = Self::into_parts(this);
            proof {
                l.lemma_full(monoid, (level - 1) as nat);
            }
            let half = Self::half(level, Ghost(len as nat));
            let grown = Self::push(r, len - half, item, monoid);
            let both = monoid.op(l.val(), grown.val());
            let out = Rc::new(RawPersistentSegmentTree::Relay(level, both, l, grown));
            proof {
                assert(out.seq() =~= before.push(item));
            }
            out
        }
    }

    /// The tree with `item` in place of the element at `index`.
    fn set(this: Rc<Self>, len: usize, index: usize, item: M::T, monoid: &M) -> (r: Rc<Self>)
        requires
            this.shape(monoid),
            len == this.seq().len(),
            index < len,
        ensures
            r.shape(monoid),
            r.seq() == this.seq().update(index as int, item),
        decreases this,
    {
        let leaf: bool = match &*this {
            RawPersistentSegmentTree::Value(_) => true,
            RawPersistentSegmentTree::Relay(_, _, _, _) => false,
        };
        if leaf {
            let r = Rc::new(RawPersistentSegmentTree::Value(item));
            proof {
                assert(r.seq() =~= this.seq().update(index as int, item));
            }
            r
        } else {
            let ghost before = this.seq();
            let (level, l, r) = Self::into_parts(this);
            proof {
                l.lemma_full(monoid, (level - 1) as nat);
            }
            let half = Self::half(level, Ghost(len as nat));
            if index < half {
                let changed = Self::set(l, half, index, item, monoid);
                proof {
                    changed.lemma_full_by_len(monoid, (level - 1) as nat);
                }
                let both = monoid.op(changed.val(), r.val());
                let out = Rc::new(RawPersistentSegmentTree::Relay(level, both, changed, r));
                proof {
                    assert(out.seq() =~= before.update(index as int, item));
                }
                out
            } else {
                let changed = Self::set(r, len - half, index - half, item, monoid);
                let both = monoid.op(l.val(), changed.val());
                let out = Rc::new(RawPersistentSegmentTree::Relay(level, both, l, changed));
                proof {
                    assert(out.seq() =~= before.update(index as int, item));
                }
                out
            }
        }
    }

    /// The product of the first `index` elements.
    fn prod_left(&self, len: usize, index: usize, monoid: &M) -> (r: M::T)
        requires
            self.shape(monoid),
            len == self.seq().len(),
            index <= len,
        ensures
            r == fold_op(monoid, self.seq().subrange(0, index as int)),
        decreases self,
    {
        if index == 0 {
            return monoid.e();
        }
        proof {
            self.lemma_kept(monoid);
        }
        if index == len {
            proof {
                assert(self.seq().subrange(0, len as int) =~= self.seq());
                monoid.identity(self.kept());
            }
            return monoid.op(&monoid.e(), self.val());
        }
        match self {
            RawPersistentSegmentTree::Value(v) => vstd::pervasive::unreached(),
            RawPersistentSegmentTree::Relay(level, _, l, r) => {
                proof {
                    l.lemma_full(monoid, (*level - 1) as nat);
                    l.lemma_kept(monoid);
                }
                let half = Self::half(*level, Ghost(len as nat));
                if index < half {
                    proof {
                        assert(self.seq().subrange(0, index as int) =~= l.seq().subrange(
                            0,
                            index as int,
                        ));
                    }
                    l.prod_left(half, index, monoid)
                } else {
                    let rest = r.prod_left(len - half, index - half, monoid);
                    proof {
                        assert(self.seq().subrange(0, index as int) =~= l.seq() + r.seq().subrange(
                            0,
                            index - half,
                        ));
                        lemma_fold_op_concat(monoid, l.seq(), r.seq().subrange(0, index - half));
                    }
                    monoid.op(l.val(), &rest)
                }
            },
        }
    }

    /// The product of the elements from `index` on.
    fn prod_right(&self, len: usize, index: usize, monoid: &M) -> (r: M::T)
        requires
            self.shape(monoid),
            len == self.seq().len(),
            index <= len,
        ensures
            r == fold_op(monoid, self.seq().subrange(index as int, len as int)),
        decreases self,
    {
        if index == len {
            assert(self.seq().subrange(len as int, len as int) =~= Seq::<M::T>::empty());
            return monoid.e();
        }
        proof {
            self.lemma_kept(monoid);
        }
        if index == 0 {
            proof {
                assert(self.seq().subrange(0, len as int) =~= self.seq());
                monoid.identity(self.kept());
            }
            return monoid.op(self.val(), &monoid.e());
        }
        match self {
            RawPersistentSegmentTree::Value(v) => vstd::pervasive::unreached(),
            RawPersistentSegmentTree::Relay(level, _, l, r) => {
                proof {
                    l.lemma_full(monoid, (*level - 1) as nat);
                    r.lemma_kept(monoid);
                }
                let half = Self::half(*level, Ghost(len as nat));
                if index < half {
                    let rest = l.prod_right(half, index, monoid);
                    proof {
                        assert(self.seq().subrange(index as int, len as int) =~= l.seq().subrange(
                            index as int,
                            half as int,
                        ) + r.seq());
                        lemma_fold_op_concat(
                            monoid,
                            l.seq().subrange(index as int, half as int),
                            r.seq(),
                        );
                    }
                    monoid.op(&rest, r.val())
                } else {
                    proof {
                        assert(self.seq().subrange(index as int, len as int) =~= r.seq().subrange(
                            index - half,
                            len - half,
                        ));
                    }
                    r.prod_right(len - half, index - half, monoid)
                }
            },
        }
    }

    /// The product of the elements at `left..right`.
    fn prod(&self, len: usize, left: usize, right: usize, monoid: &M) -> (r: M::T)
        requires
            self.shape(monoid),
            len == self.seq().len(),
            left <= right <= len,
        ensures
            r == fold_op(monoid, self.seq().subrange(left as int, right as int)),
        decreases self,
    {
        if left == 0 {
            return self.prod_left(len, right, monoid);
        }
        if right == len {
            return self.prod_right(len, left, monoid);
        }
        match self {
            RawPersistentSegmentTree::Value(v) => vstd::pervasive::unreached(),
            RawPersistentSegmentTree::Relay(level, _, l, r) => {
                proof {
                    l.lemma_full(monoid, (*level - 1) as nat);
                }
                let half = Self::half(*level, Ghost(len as nat));
                if right <= half {
                    proof {
                        assert(self.seq().subrange(left as int, right as int)
                            =~= l.seq().subrange(left as int, right as int));
                    }
                    l.prod(half, left, right, monoid)
                } else if left >= half {
                    proof {
                        assert(self.seq().subrange(left as int, right as int)
                            =~= r.seq().subrange(left - half, right - half));
                    }
                    r.prod(len - half, left - half, right - half, monoid)
                } else {
                    let a = l.prod_right(half, left, monoid);
                    let b = r.prod_left(len - half, right - half, monoid);
                    proof {
                        assert(self.seq().subrange(left as int, right as int)
                            =~= l.seq().subrange(left as int, half as int) + r.seq().subrange(
                            0,
                            right - half,
                        ));
                        lemma_fold_op_concat(
                            monoid,
                            l.seq().subrange(left as int, half as int),
                            r.seq().subrange(0, right - half),
                        );
                    }
                    monoid.op(&a, &b)
                }
            },
        }
    }
}

/// A sequence over a monoid with point updates and range products, cloned
/// in constant time.
pub struct PersistentSegmentTree<M: Monoid>(Option<Rc<RawPersistentSegmentTree<M>>>, M);

impl<M: Monoid> View for PersistentSegmentTree<M> {
    type V = Seq<M::T>;

    /// The elements, in order.
    closed spec fn view(&self) -> Seq<M::T> {
        match self.0 {
            Some(node) => node.seq(),
            None => Seq::empty(),
        }
    }
}

impl<M: Monoid + Clone> Clone for PersistentSegmentTree<M> {
    /// A second tree over the same nodes, with a clone of the monoid.
    fn clone(&self) -> (r: Self)
        ensures
            r@ == self@,
            cloned::<M>(*self.monoid(), *r.monoid()),
            *r.monoid() == *self.monoid() ==> r.wf() == self.wf(),
    {
        let root = match &self.0 {
            Some(rc) => Some(rc.clone()),
            None => None,
        };
        PersistentSegmentTree(root, self.1.clone())
    }
}

impl<M: Monoid> PersistentSegmentTree<M> {
    /// The tree has the shape that `new` gives it, every node keeps the
    /// product of its children, and the length fits a `usize`.
    pub closed spec fn wf(&self) -> bool {
        match self.0 {
            Some(node) => node.shape(&self.1) && node.seq().len() <= usize::MAX,
            None => true,
        }
    }

    /// The monoid in which the elements are combined.
    pub closed spec fn monoid(&self) -> &M {
        &self.1
    }

    /// The elements of `items`.
    pub fn new(monoid: M, items: Vec<M::T>) -> (r: Self)
        ensures
            r.wf(),
            r.monoid() == &monoid,
            r@ == items@,
    {
        let mut items = items;
        let ghost all = items@;
        let total = items.len();
        let mut root: Option<Rc<RawPersistentSegmentTree<M>>> = None;
        let mut stack: Vec<M::T> = Vec::new();
        // The elements are taken off the end of `items`, so they are turned
        // round once before they are put in.
        while items.len() > 0
            invariant
                items@.len() + stack@.len() == all.len(),
                items@ == all.subrange(0, items@.len() as int),
                forall|i: int|
                    0 <= i < stack@.len() ==> stack@[i] == all[all.len() - 1 - i],
            decreases items@.len(),
        {
            let v = items.pop().unwrap();
            stack.push(v);
        }
        let mut len: usize = 0;
        while stack.len() > 0
            invariant
                all.len() == total,
                len + stack@.len() == all.len(),
                forall|i: int|
                    0 <= i < stack@.len() ==> stack@[i] == all[all.len() - 1 - i],
                match root {
                    Some(node) => node.shape(&monoid) && node.seq() == all.subrange(0, len as int),
                    None => len == 0,
                },
            decreases stack@.len(),
        {
            let v = stack.pop().unwrap();
            root =
            match root {
                Some(node) => Some(RawPersistentSegmentTree::push(node, len, v, &monoid)),
                None => {
                    let leaf = Rc::new(RawPersistentSegmentTree::Value(v));
                    proof {
                        assert(leaf.seq() =~= seq![v]);
                    }
                    Some(leaf)
                },
            };
            proof {
                assert(all.subrange(0, len + 1) =~= all.subrange(0, len as int).push(v));
            }
            len = len + 1;
        }
        proof {
            assert(all.subrange(0, len as int) =~= all);
        }
        PersistentSegmentTree(root, monoid)
    }

    /// Number of elements.
    pub fn len(&self) -> (r: usize)
        requires
            self.wf(),
        ensures
            r == self@.len(),
    {
        match &self.0 {
            Some(node) => node.len(Ghost(&self.1)),
            None => 0,
        }
    }

    /// Puts `item` in place of the element at `index`.
    pub fn set(&mut self, index: usize, item: M::T)
        requires
            old(self).wf(),
            index < old(self)@.len(),
        ensures
            final(self).wf(),
            final(self).monoid() == old(self).monoid(),
            final(self)@ == old(self)@.update(index as int, item),
    {
        let len = self.len();
        match self.0.take() {
            Some(node) => {
                self.0 = Some(RawPersistentSegmentTree::set(node, len, index, item, &self.1));
            },
            None => {},
        }
    }

    /// The product of the elements in `range`, from left to right.
    pub fn prod<R: IndexRange>(&self, range: R) -> (r: M::T)
        requires
            self.wf(),
            range_within(&range, self@.len() as int),
        ensures
            r == fold_op(
                self.monoid(),
                self@.subrange(range_lower(&range), range_upper(&range, self@.len() as int)),
            ),
    {
        let len = self.len();
        let (left, right) = normalize(&range, len);
        match &self.0 {
            Some(node) => node.prod(len, left, right, &self.1),
            None => {
                assert(self@.subrange(0, 0) =~= Seq::<M::T>::empty());
                self.1.e()
            },
        }
    }
}

} // verus!
