//! A sequence in a binary tree that is kept balanced by the weights of its
//! subtrees: insertion and removal at any index in logarithmic time.

use vstd::prelude::*;

verus! {

/// A tree with the elements in its leaves. A fork keeps the number of
/// elements on its left.
enum RawBinaryTree<T> {
    Empty,
    Leaf(Box<T>),
    Trunc(usize, Box<RawBinaryTree<T>>, Box<RawBinaryTree<T>>),
}

impl<T> RawBinaryTree<T> {
    /// The elements, from left to right.
    spec fn seq(&self) -> Seq<T>
        decreases self,
    {
        match self {
            RawBinaryTree::Empty => Seq::empty(),
            RawBinaryTree::Leaf(v) => seq![**v],
            RawBinaryTree::Trunc(_, l, r) => l.seq() + r.seq(),
        }
    }

    /// Every fork has elements on both sides and keeps the number of those
    /// on its left.
    spec fn wf(&self) -> bool
        decreases self,
    {
        match self {
            RawBinaryTree::Empty => true,
            RawBinaryTree::Leaf(_) => true,
            RawBinaryTree::Trunc(lsize, l, r) => {
                &&& l.wf()
                &&& r.wf()
                &&& *lsize == l.seq().len()
                &&& l.seq().len() >= 1
                &&& r.seq().len() >= 1
            },
        }
    }

    /// The tree is what its number of elements says: nothing, a leaf or a fork.
    proof fn lemma_kind(&self)
        requires
            self.wf(),
        ensures
            self.seq().len() == 0 <==> self is Empty,
            self.seq().len() == 1 <==> self is Leaf,
            self.seq().len() >= 2 <==> self is Trunc,
    {
    }

    /// The element at `index`.
    fn index(&self, len: usize, index: usize) -> (r: &T)
        requires
            self.wf(),
            len == self.seq().len(),
            index < len,
        ensures
            *r == self.seq()[index as int],
        decreases self,
    {
        proof {
            self.lemma_kind();
        }
        match self {
            RawBinaryTree::Leaf(v) => &**v,
            RawBinaryTree::Trunc(lsize, l, r) => {
                if index < *lsize {
                    l.index(*lsize, index)
                } else {
                    r.index(len - *lsize, index - *lsize)
                }
            },
            RawBinaryTree::Empty => vstd::pervasive::unreached(),
        }
    }

    /// The tree with `item` in place of the element at `index`.
    fn replace(self, len: usize, index: usize, item: T) -> (r: Self)
        requires
            self.wf(),
            len == self.seq().len(),
            index < len,
        ensures
            r.wf(),
            r.seq() == self.seq().update(index as int, item),
        decreases self,
    {
        proof {
            self.lemma_kind();
        }
        match self {
            RawBinaryTree::Leaf(_) => {
                let r = RawBinaryTree::Leaf(Box::new(item));
                proof {
                    assert(r.seq() =~= self.seq().update(index as int, item));
                }
                r
            },
            RawBinaryTree::Trunc(lsize, l, r) => {
                if index < lsize {
                    let changed = (*l).replace(lsize, index, item);
                    let out = RawBinaryTree::Trunc(lsize, Box::new(changed), r);
                    proof {
                        assert(out.seq() =~= self.seq().update(index as int, item));
                    }
                    out
                } else {
                    let changed = (*r).replace(len - lsize, index - lsize, item);
                    let out = RawBinaryTree::Trunc(lsize, l, Box::new(changed));
                    proof {
                        assert(out.seq() =~= self.seq().update(index as int, item));
                    }
                    out
                }
            },
            RawBinaryTree::Empty => vstd::pervasive::unreached(),
        }
    }

    /// The left side of a fork; of another tree, the tree itself.
    spec fn left(self) -> Self {
        match self {
            RawBinaryTree::Trunc(_, l, _) => *l,
            _ => self,
        }
    }

    /// The right side of a fork; of another tree, the tree itself.
    spec fn right(self) -> Self {
        match self {
            RawBinaryTree::Trunc(_, _, r) => *r,
            _ => self,
        }
    }

    /// Number of elements.
    spec fn size(self) -> nat {
        self.seq().len()
    }

    /// The fork of `l` and `r`.
    spec fn fork(l: Self, r: Self) -> Self {
        RawBinaryTree::Trunc(l.size() as usize, Box::new(l), Box::new(r))
    }

    /// The fork turned to the left: the right side of its right side stays
    /// on the right, and the rest becomes a fork on the left.
    spec fn turned_left(self) -> Self {
        Self::fork(Self::fork(self.left(), self.right().left()), self.right().right())
    }

    /// The fork turned to the right: the left side of its left side stays on
    /// the left, and the rest becomes a fork on the right.
    spec fn turned_right(self) -> Self {
        Self::fork(self.left().left(), Self::fork(self.left().right(), self.right()))
    }

    /// What `rebalance` makes of a fork. Where neither side holds three
    /// times as many elements as the other, the fork stays. Where the left
    /// side does, the fork is turned to the right, after its left side has
    /// been turned to the left if the left side of that holds no more
    /// elements than the right side of the fork; and the other way round
    /// where the right side does.
    spec fn rebalanced(self) -> Self {
        let l = self.left().size();
        let r = self.right().size();
        if l >= 3 * r {
            if self.left().left().size() <= r {
                Self::fork(self.left().turned_left(), self.right()).turned_right()
            } else {
                self.turned_right()
            }
        } else if r >= 3 * l {
            if self.right().right().size() <= l {
                Self::fork(self.left(), self.right().turned_right()).turned_left()
            } else {
                self.turned_left()
            }
        } else {
            self
        }
    }

    /// Turns the fork to the left: its right child, a fork, becomes the root.
    fn rot_l(self) -> (r: Self)
        requires
            self.wf(),
            self matches RawBinaryTree::Trunc(_, _, right) && *right is Trunc,
            self.seq().len() <= usize::MAX,
        ensures
            r.wf(),
            r.seq() == self.seq(),
            r is Trunc,
            r == self.turned_left(),
    {
        proof {
            reveal_with_fuel(RawBinaryTree::wf, 2);
            reveal_with_fuel(RawBinaryTree::seq, 2);
        }
        match self {
            RawBinaryTree::Trunc(lsize, a, right) => match *right {
                RawBinaryTree::Trunc(sub, b, c) => {
                    let left = RawBinaryTree::Trunc(lsize, a, b);
                    let out = RawBinaryTree::Trunc(lsize + sub, Box::new(left), c);
                    proof {
                        assert(out.seq() =~= self.seq());
                    }
                    out
                },
                _ => vstd::pervasive::unreached(),
            },
            _ => vstd::pervasive::unreached(),
        }
    }

    /// Turns the fork to the right: its left child, a fork, becomes the root.
    fn rot_r(self) -> (r: Self)
        requires
            self.wf(),
            self matches RawBinaryTree::Trunc(_, left, _) && *left is Trunc,
        ensures
            r.wf(),
            r.seq() == self.seq(),
            r is Trunc,
            r == self.turned_right(),
    {
        proof {
            reveal_with_fuel(RawBinaryTree::wf, 2);
            reveal_with_fuel(RawBinaryTree::seq, 2);
        }
        match self {
            RawBinaryTree::Trunc(lsize, left, c) => match *left {
                RawBinaryTree::Trunc(sub, a, b) => {
                    let right = RawBinaryTree::Trunc(lsize - sub, b, c);
                    let out = RawBinaryTree::Trunc(sub, a, Box::new(right));
                    proof {
                        assert(out.seq() =~= self.seq());
                    }
                    out
                },
                _ => vstd::pervasive::unreached(),
            },
            _ => vstd::pervasive::unreached(),
        }
    }

    /// Brings a fork back into balance where one side has come to hold at
    /// least three times as many elements as the other.
    fn rebalance(self, len: usize) -> (r: Self)
        requires
            self.wf(),
            self is Trunc,
            len == self.seq().len(),
        ensures
            r.wf(),
            r.seq() == self.seq(),
            r is Trunc,
            r == self.rebalanced(),
            self.left().size() >= 3 * self.right().size() ==> r.left().size() < self.left().size(),
            self.right().size() >= 3 * self.left().size() ==> r.right().size()
                < self.right().size(),
    {
        proof {
            reveal_with_fuel(RawBinaryTree::wf, 2);
            reveal_with_fuel(RawBinaryTree::seq, 2);
        }
        match self {
            RawBinaryTree::Trunc(l, ltree, rtree) => {
                let r = len - l;
                proof {
                    ltree.lemma_kind();
                    rtree.lemma_kind();
                }
                if l / 3 >= r {
                    // the left side is a fork of at least three elements
                    match *ltree {
                        RawBinaryTree::Trunc(ll, a, b) => {
                            proof {
                                b.lemma_kind();
                            }
                            let ltree = RawBinaryTree::Trunc(ll, a, b);
                            let ltree = if ll <= r {
                                ltree.rot_l()
                            } else {
                                ltree
                            };
                            RawBinaryTree::Trunc(l, Box::new(ltree), rtree).rot_r()
                        },
                        _ => vstd::pervasive::unreached(),
                    }
                } else if r / 3 >= l {
                    match *rtree {
                        RawBinaryTree::Trunc(rl, a, b) => {
                            proof {
                                a.lemma_kind();
                            }
                            let rr = r - rl;
                            let rtree = RawBinaryTree::Trunc(rl, a, b);
                            let rtree = if rr <= l {
                                rtree.rot_r()
                            } else {
                                rtree
                            };
                            RawBinaryTree::Trunc(l, ltree, Box::new(rtree)).rot_l()
                        },
                        _ => vstd::pervasive::unreached(),
                    }
                } else {
                    RawBinaryTree::Trunc(l, ltree, rtree)
                }
            },
            _ => vstd::pervasive::unreached(),
        }
    }

    /// The tree with `item` in front of the element at `index`.
    fn insert(self, len: usize, index: usize, item: Box<T>) -> (r: Self)
        requires
            self.wf(),
            len == self.seq().len(),
            1 <= len < usize::MAX,
            index <= len,
        ensures
            r.wf(),
            r.seq() == self.seq().insert(index as int, *item),
        decreases self,
    {
        proof {
            self.lemma_kind();
            reveal_with_fuel(RawBinaryTree::wf, 2);
            reveal_with_fuel(RawBinaryTree::seq, 2);
        }
        match self {
            RawBinaryTree::Leaf(old) => {
                let new = RawBinaryTree::Leaf(item);
                let old = RawBinaryTree::Leaf(old);
                let out = if index == 0 {
                    RawBinaryTree::Trunc(1, Box::new(new), Box::new(old))
                } else {
                    RawBinaryTree::Trunc(1, Box::new(old), Box::new(new))
                };
                proof {
                    assert(out.seq() =~= self.seq().insert(index as int, *item));
                }
                out
            },
            RawBinaryTree::Trunc(lsize, l, r) => {
                let grown = if index <= lsize {
                    let l = (*l).insert(lsize, index, item);
                    RawBinaryTree::Trunc(lsize + 1, Box::new(l), r)
                } else {
                    let r = (*r).insert(len - lsize, index - lsize, item);
                    RawBinaryTree::Trunc(lsize, l, Box::new(r))
                };
                proof {
                    assert(grown.seq() =~= self.seq().insert(index as int, *item));
                }
                grown.rebalance(len + 1)
            },
            RawBinaryTree::Empty => vstd::pervasive::unreached(),
        }
    }

    /// The element at `index`, and the tree without it.
    fn remove(self, len: usize, index: usize) -> (r: (Box<T>, Self))
        requires
            self.wf(),
            len == self.seq().len(),
            len >= 2,
            index < len,
        ensures
            *r.0 == self.seq()[index as int],
            r.1.wf(),
            r.1.seq() == self.seq().remove(index as int),
        decreases self,
    {
        proof {
            self.lemma_kind();
            reveal_with_fuel(RawBinaryTree::wf, 2);
            reveal_with_fuel(RawBinaryTree::seq, 2);
        }
        match self {
            RawBinaryTree::Trunc(lsize, l, r) => {
                proof {
                    l.lemma_kind();
                    r.lemma_kind();
                }
                if index < lsize {
                    if lsize == 1 {
                        match *l {
                            RawBinaryTree::Leaf(v) => {
                                proof {
                                    assert(r.seq() =~= self.seq().remove(index as int));
                                }
                                (v, *r)
                            },
                            _ => vstd::pervasive::unreached(),
                        }
                    } else {
                        let (v, l) = (*l).remove(lsize, index);
                        let out = RawBinaryTree::Trunc(lsize - 1, Box::new(l), r);
                        proof {
                            assert(out.seq() =~= self.seq().remove(index as int));
                        }
                        (v, out.rebalance(len - 1))
                    }
                } else {
                    if lsize == len - 1 {
                        match *r {
                            RawBinaryTree::Leaf(v) => {
                                proof {
                                    assert(l.seq() =~= self.seq().remove(index as int));
                                }
                                (v, *l)
                            },
                            _ => vstd::pervasive::unreached(),
                        }
                    } else {
                        let (v, r) = (*r).remove(len - lsize, index - lsize);
                        let out = RawBinaryTree::Trunc(lsize, l, Box::new(r));
                        proof {
                            assert(out.seq() =~= self.seq().remove(index as int));
                        }
                        (v, out.rebalance(len - 1))
                    }
                }
            },
            _ => vstd::pervasive::unreached(),
        }
    }
}

/// A sequence with insertion and removal at any index.
pub struct BinaryTree<T> {
    len: usize,
    root: RawBinaryTree<T>,
}

impl<T> View for BinaryTree<T> {
    type V = Seq<T>;

    /// The elements, in order.
    closed spec fn view(&self) -> Seq<T> {
        self.root.seq()
    }
}

impl<T> BinaryTree<T> {
    /// The kept length is that of the sequence, and every fork keeps the
    /// number of elements on its left.
    pub closed spec fn wf(&self) -> bool {
        &&& self.root.wf()
        &&& self.len == self.root.seq().len()
    }

    /// The empty sequence.
    pub fn new() -> (r: Self)
        ensures
            r.wf(),
            r@ == Seq::<T>::empty(),
    {
        BinaryTree { len: 0, root: RawBinaryTree::Empty }
    }

    /// Number of elements.
    pub fn len(&self) -> (r: usize)
        requires
            self.wf(),
        ensures
            r == self@.len(),
    {
        self.len
    }

    /// Whether there is no element.
    pub fn is_empty(&self) -> (r: bool)
        requires
            self.wf(),
        ensures
            r == (self@.len() == 0),
    {
        self.len == 0
    }

    /// Puts `item` in front of the element at `index`, or behind the last
    /// element where `index` is the length.
    pub fn insert(&mut self, index: usize, item: T)
        requires
            old(self).wf(),
            index <= old(self)@.len(),
            old(self)@.len() < usize::MAX,
        ensures
            final(self).wf(),
            final(self)@ == old(self)@.insert(index as int, item),
    {
        let mut root = RawBinaryTree::Empty;
        std::mem::swap(&mut root, &mut self.root);
        if self.len == 0 {
            proof {
                root.lemma_kind();
            }
            self.root = RawBinaryTree::Leaf(Box::new(item));
            assert(self.root.seq() =~= old(self)@.insert(index as int, item));
        } else {
            self.root = root.insert(self.len, index, Box::new(item));
        }
        self.len = self.len + 1;
    }

    /// Takes the element at `index` out and returns it.
    pub fn remove(&mut self, index: usize) -> (r: T)
        requires
            old(self).wf(),
            index < old(self)@.len(),
        ensures
            final(self).wf(),
            r == old(self)@[index as int],
            final(self)@ == old(self)@.remove(index as int),
    {
        let mut root = RawBinaryTree::Empty;
        std::mem::swap(&mut root, &mut self.root);
        proof {
            root.lemma_kind();
        }
        if self.len == 1 {
            self.len = 0;
            match root {
                RawBinaryTree::Leaf(v) => {
                    assert(self.root.seq() =~= old(self)@.remove(index as int));
                    *v
                },
                _ => vstd::pervasive::unreached(),
            }
        } else {
            let (v, rest) = root.remove(self.len, index);
            self.len = self.len - 1;
            self.root = rest;
            *v
        }
    }

    /// The element at `index`.
    pub fn get(&self, index: usize) -> (r: &T)
        requires
            self.wf(),
            index < self@.len(),
        ensures
            *r == self@[index as int],
    {
        self.root.index(self.len, index)
    }

    /// Puts `item` in place of the element at `index`.
    pub fn set(&mut self, index: usize, item: T)
        requires
            old(self).wf(),
            index < old(self)@.len(),
        ensures
            final(self).wf(),
            final(self)@ == old(self)@.update(index as int, item),
    {
        let mut root = RawBinaryTree::Empty;
        std::mem::swap(&mut root, &mut self.root);
        self.root = root.replace(self.len, index, item);
    }
}

impl<T> Default for BinaryTree<T> {
    fn default() -> (r: Self)
        ensures
            r.wf(),
            r@ == Seq::<T>::empty(),
    {
        Self::new()
    }
}

} // verus!
