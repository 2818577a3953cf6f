//! A randomized balanced sequence with split, merge, reversal, range products and
//! lazy range updates, whose nodes are shared between clones and copied on write.

use crate::util::{normalize, range_lower, range_upper, range_within, IndexRange};
use std::rc::Rc;
use vstd::prelude::*;

verus! {

/// Seed of a freshly made generator. It is not zero, which is the one state
/// that the mixing step cannot leave.
pub const RNG_SEED: u64 = 0xf285692d6bf31f57;

/// One step of the generator: two xor-shifts.
pub open spec fn rng_step(s: u64) -> u64 {
    let t = s ^ (s << 7);
    t ^ (t >> 9)
}

/// The second, different mixing pass that derives a forked generator.
pub open spec fn rng_remix(s: u64) -> u64 {
    let t = s ^ (s >> 7);
    t ^ (t << 9)
}

/// The weighted coin decided by one raw draw: the draw is scaled to `0..a + b`
/// and compared against `a`.
pub open spec fn rng_pick(draw: u64, a: usize, b: usize) -> bool {
    (draw as int) * (a + b) / 0x1_0000_0000_0000_0000 < a
}

/// The state that `k` steps lead to from the state `s`.
pub open spec fn rng_after(s: u64, k: nat) -> u64
    decreases k,
{
    if k == 0 {
        s
    } else {
        rng_step(rng_after(s, (k - 1) as nat))
    }
}

/// Whether some number of draws leads from the generator `from` to the
/// generator `to`.
pub open spec fn drawn(from: Rng, to: Rng) -> bool {
    exists|k: nat| rng_after(from.0, k) == to.0
}

/// No draw leaves a generator as it is.
pub proof fn lemma_drawn_none(a: Rng)
    ensures
        drawn(a, a),
{
    assert(rng_after(a.0, 0) == a.0);
}

/// Draws after draws are draws.
pub proof fn lemma_drawn_more(a: Rng, b: Rng, c: Rng)
    requires
        drawn(a, b),
        drawn(b, c),
    ensures
        drawn(a, c),
{
    let k = choose|k: nat| rng_after(a.0, k) == b.0;
    let j = choose|j: nat| rng_after(b.0, j) == c.0;
    lemma_rng_after(a.0, k, j);
    assert(rng_after(a.0, k + j) == c.0);
}

/// Steps after steps add up.
proof fn lemma_rng_after(s: u64, k: nat, j: nat)
    ensures
        rng_after(s, k + j) == rng_after(rng_after(s, k), j),
    decreases j,
{
    if j > 0 {
        lemma_rng_after(s, k, (j - 1) as nat);
    }
}

/// One draw is a draw.
pub proof fn lemma_drawn_one(a: Rng, b: Rng)
    requires
        b.0 == rng_step(a.0),
    ensures
        drawn(a, b),
{
    assert(rng_after(a.0, 0) == a.0);
    assert(rng_after(a.0, 1) == rng_step(rng_after(a.0, 0)));
}

/// One entry of the outline of a tree.
pub enum Mark<T> {
    /// A subtree begins.
    Open,
    /// An element.
    Item(T),
    /// A subtree ends.
    Close,
}

/// The elements among `marks`, in order.
pub open spec fn items_of<T>(marks: Seq<Mark<T>>) -> Seq<T>
    decreases marks.len(),
{
    if marks.len() == 0 {
        Seq::empty()
    } else {
        match marks.last() {
            Mark::Item(v) => items_of(marks.drop_last()).push(v),
            _ => items_of(marks.drop_last()),
        }
    }
}

/// How many of the subtrees that begin among `marks` do not end there.
pub open spec fn depth_of<T>(marks: Seq<Mark<T>>) -> int
    decreases marks.len(),
{
    if marks.len() == 0 {
        0
    } else {
        match marks.last() {
            Mark::Open => depth_of(marks.drop_last()) + 1,
            Mark::Item(_) => depth_of(marks.drop_last()),
            Mark::Close => depth_of(marks.drop_last()) - 1,
        }
    }
}

/// Coin-flip generator (xorshift on 64 bits).
#[derive(Clone, Copy)]
pub struct Rng(pub u64);

impl Rng {
    /// A generator in the fixed initial state.
    pub fn new() -> (r: Self)
        ensures
            r.0 == RNG_SEED,
    {
        Rng(RNG_SEED)
    }

    /// Advances the state by one step and returns it.
    pub fn gen(&mut self) -> (r: u64)
        ensures
            final(self).0 == rng_step(old(self).0),
            r == final(self).0,
    {
        self.0 = self.0 ^ (self.0 << 7);
        self.0 = self.0 ^ (self.0 >> 9);
        self.0
    }

    /// Draws once and answers `true` with probability about `a / (a + b)`.
    /// With `a == 0` the answer is always `false`.
    pub fn pick(&mut self, a: usize, b: usize) -> (r: bool)
        requires
            a + b <= usize::MAX,
        ensures
            final(self).0 == rng_step(old(self).0),
            r == rng_pick(final(self).0, a, b),
            r ==> a > 0,
    {
        let draw = self.gen();
        let total: usize = a + b;
        assert((draw as u128) * (total as u128) <= 0xffff_ffff_ffff_ffff_u128
            * 0xffff_ffff_ffff_ffff_u128) by (nonlinear_arith)
            requires
                draw as u128 <= 0xffff_ffff_ffff_ffff_u128,
                total as u128 <= 0xffff_ffff_ffff_ffff_u128,
        ;
        let scaled: u128 = (draw as u128) * (total as u128);
        let high: u128 = scaled >> 64;
        assert(high == scaled / 0x1_0000_0000_0000_0000) by (bit_vector)
            requires
                high == scaled >> 64,
        ;
        high < (a as u128)
    }

    /// Advances this generator once and returns another one, derived from the
    /// new state by the second mixing pass.
    pub fn make(&mut self) -> (r: Self)
        ensures
            final(self).0 == rng_step(old(self).0),
            r.0 == rng_remix(final(self).0),
    {
        self.gen();
        let mut r = *self;
        r.0 = r.0 ^ (r.0 >> 7);
        r.0 = r.0 ^ (r.0 << 9);
        r
    }
}

/// The mathematical side of a manager: the four types, what its operations
/// mean, and the laws they obey.
///
/// An `Info` stands for two things at once: a summary of the elements of a
/// subtree in their current order (`describes`), and an update that still has
/// to reach every element below the node that holds it (`pending`).
pub trait MasterModel: Sized {
    /// The elements of the sequence.
    type T: Clone;

    /// What a node keeps about its subtree: a summary and a buffered update.
    type Info: Clone;

    /// The monoid in which a range is summed up.
    type Prod: Clone;

    /// The updates that can be applied to a range.
    type Lazy: Clone;

    /// The identity of the monoid.
    spec fn e_spec() -> Self::Prod;

    /// The operation of the monoid.
    spec fn op_spec(left: Self::Prod, right: Self::Prod) -> Self::Prod;

    /// The product of a single element.
    spec fn val2prod_spec(val: Self::T) -> Self::Prod;

    /// The element that `lazy` turns `val` into.
    spec fn act(lazy: Self::Lazy, val: Self::T) -> Self::T;

    /// The element that the update buffered in `info` turns `val` into.
    spec fn pending(info: Self::Info, val: Self::T) -> Self::T;

    /// Whether the summary in `info` is that of the sequence `s`.
    spec fn describes(info: Self::Info, s: Seq<Self::T>) -> bool;

    /// The operation is associative.
    proof fn op_associative(a: Self::Prod, b: Self::Prod, c: Self::Prod)
        ensures
            Self::op_spec(Self::op_spec(a, b), c) == Self::op_spec(a, Self::op_spec(b, c)),
    ;

    /// `e_spec()` is an identity on both sides.
    proof fn op_identity(a: Self::Prod)
        ensures
            Self::op_spec(Self::e_spec(), a) == a,
            Self::op_spec(a, Self::e_spec()) == a,
    ;

    /// A clone of an element is that element.
    proof fn clone_val_exact(a: Self::T, b: Self::T)
        requires
            cloned::<Self::T>(a, b),
        ensures
            a == b,
    ;

    /// A clone of an `Info` is that `Info`.
    proof fn clone_info_exact(a: Self::Info, b: Self::Info)
        requires
            cloned::<Self::Info>(a, b),
        ensures
            a == b,
    ;
}

/// The product of a sequence: its elements' products, combined from left to right.
pub open spec fn fold<M: MasterModel>(s: Seq<M::T>) -> M::Prod
    decreases s.len(),
{
    if s.len() == 0 {
        M::e_spec()
    } else {
        M::op_spec(fold::<M>(s.drop_last()), M::val2prod_spec(s.last()))
    }
}

/// `s` with `lazy` applied to each element.
pub open spec fn act_all<M: MasterModel>(lazy: M::Lazy, s: Seq<M::T>) -> Seq<M::T> {
    Seq::new(s.len(), |i: int| M::act(lazy, s[i]))
}

/// `s` with `lazy` applied to the elements at `left..right` and to no other.
pub open spec fn act_range<M: MasterModel>(
    lazy: M::Lazy,
    s: Seq<M::T>,
    left: int,
    right: int,
) -> Seq<M::T> {
    Seq::new(
        s.len(),
        |i: int|
            if left <= i < right {
                M::act(lazy, s[i])
            } else {
                s[i]
            },
    )
}

/// `s` with the update buffered in `info` applied to each element.
pub open spec fn pend_all<M: MasterModel>(info: M::Info, s: Seq<M::T>) -> Seq<M::T> {
    Seq::new(s.len(), |i: int| M::pending(info, s[i]))
}

/// Whether `info` buffers no update.
pub open spec fn settled<M: MasterModel>(info: M::Info) -> bool {
    forall|v: M::T| #[trigger] M::pending(info, v) == v
}

/// Whether `after` is `before` with `lazy` applied on top: to the summary of a
/// sequence of `len` elements, and behind the update that was buffered already.
pub open spec fn info_acted<M: MasterModel>(
    before: M::Info,
    after: M::Info,
    len: usize,
    lazy: M::Lazy,
) -> bool {
    &&& forall|v: M::T| #[trigger] M::pending(after, v) == M::act(lazy, M::pending(before, v))
    &&& forall|s: Seq<M::T>|
        s.len() == len && #[trigger] M::describes(before, s) ==> M::describes(
            after,
            act_all::<M>(lazy, s),
        )
}

/// Whether `after` is `before` with the update buffered in `above` pushed into it.
pub open spec fn info_pushed<M: MasterModel>(
    above: M::Info,
    before: M::Info,
    after: M::Info,
    len: usize,
) -> bool {
    &&& forall|v: M::T| #[trigger]
        M::pending(after, v) == M::pending(above, M::pending(before, v))
    &&& forall|s: Seq<M::T>|
        s.len() == len && #[trigger] M::describes(before, s) ==> M::describes(
            after,
            pend_all::<M>(above, s),
        )
}

/// Whether `info`, if there is one, describes `s`; without one, `s` is empty.
pub open spec fn side_describes<M: MasterModel>(
    side: (Option<&M::Info>, usize),
    s: Seq<M::T>,
) -> bool {
    &&& s.len() == side.1
    &&& match side.0 {
        Some(info) => M::describes(*info, s),
        None => s.len() == 0,
    }
}

/// The operations that a caller supplies to steer a `MasterTree`.
///
/// The tree relies on each operation's contract. In particular `propagate`
/// has to clear what it has pushed down: a manager that does not would have
/// the update applied twice.
pub trait MasterManager: MasterModel {
    /// The `Info` of `left`, `mid` and `right` joined in this order, with no
    /// update buffered. A side is `(Some(info), len)`, or `(None, 0)` where it
    /// is empty.
    fn make_info(
        left: (Option<&Self::Info>, usize),
        mid: &Self::T,
        right: (Option<&Self::Info>, usize),
    ) -> (r: Self::Info)
        requires
            left.0.is_none() ==> left.1 == 0,
            right.0.is_none() ==> right.1 == 0,
            left.1 + 1 + right.1 <= usize::MAX,
        ensures
            settled::<Self>(r),
            forall|ls: Seq<Self::T>, rs: Seq<Self::T>|
                #[trigger] side_describes::<Self>(left, ls) && #[trigger] side_describes::<Self>(
                    right,
                    rs,
                ) ==> Self::describes(r, ls.push(*mid) + rs),
    ;

    /// Turns the summary of a sequence of `len` elements into that of the
    /// reversed sequence. The buffered update stays.
    fn rev(info: &mut Self::Info, len: usize)
        ensures
            forall|v: Self::T| #[trigger]
                Self::pending(*final(info), v) == Self::pending(*old(info), v),
            forall|s: Seq<Self::T>|
                s.len() == len && #[trigger] Self::describes(*old(info), s) ==> Self::describes(
                    *final(info),
                    s.reverse(),
                ),
    ;

    /// Applies `lazy` to an `Info` of `len` elements: to the summary at once,
    /// and to the buffer for the elements below.
    fn apply_info(info: &mut Self::Info, len: usize, lazy: &Self::Lazy)
        ensures
            info_acted::<Self>(*old(info), *final(info), len, *lazy),
    ;

    /// Applies `lazy` to one element.
    fn apply_val(val: &mut Self::T, lazy: &Self::Lazy)
        ensures
            *final(val) == Self::act(*lazy, *old(val)),
    ;

    /// Pushes the update buffered in `info` one level down: into the node's
    /// own element and into the `Info` of each child, and clears it in `info`.
    fn propagate(
        info: &mut Self::Info,
        left: (Option<&mut Self::Info>, usize),
        val: &mut Self::T,
        right: (Option<&mut Self::Info>, usize),
    )
        ensures
            settled::<Self>(*final(info)),
            forall|s: Seq<Self::T>| #[trigger]
                Self::describes(*old(info), s) ==> Self::describes(*final(info), s),
            *final(val) == Self::pending(*old(info), *old(val)),
            left.0.is_some() ==> info_pushed::<Self>(
                *old(info),
                *old(left.0.unwrap()),
                *final(left.0.unwrap()),
                left.1,
            ),
            right.0.is_some() ==> info_pushed::<Self>(
                *old(info),
                *old(right.0.unwrap()),
                *final(right.0.unwrap()),
                right.1,
            ),
    ;

    /// The product of the sequence that `info` describes.
    fn info2prod(info: &Self::Info) -> (r: Self::Prod)
        ensures
            forall|s: Seq<Self::T>| #[trigger] Self::describes(*info, s) ==> r == fold::<Self>(s),
    ;

    /// The product of one element.
    fn val2prod(val: &Self::T) -> (r: Self::Prod)
        ensures
            r == Self::val2prod_spec(*val),
    ;

    /// The identity of the monoid.
    fn e() -> (r: Self::Prod)
        ensures
            r == Self::e_spec(),
    ;

    /// The operation of the monoid.
    fn op(left: Self::Prod, right: Self::Prod) -> (r: Self::Prod)
        ensures
            r == Self::op_spec(left, right),
    ;
}

/// `Rc::make_mut`: a mutable reference to the value behind `this`. Where the
/// value is shared, `this` first becomes a pointer to a clone of it, so that
/// no other holder sees the change; where it is not, the value itself is
/// handed out.
#[verifier::external_body]
fn rc_make_mut<T: Clone>(this: &mut Rc<T>) -> (r: &mut T)
    ensures
        cloned::<T>(**old(this), *r),
        **final(this) == *final(r),
{
    Rc::make_mut(this)
}

/// One element of the sequence with what is kept about the subtree below it.
struct Node<M: MasterManager> {
    val: M::T,
    info: M::Info,
    /// Number of elements in the left subtree.
    idx: usize,
    /// Whether the subtree still has to be reversed.
    rev: bool,
    left: Option<NodeWrapper<M>>,
    right: Option<NodeWrapper<M>>,
}

/// A counted handle to a node, shared between all trees that hold the node.
struct NodeWrapper<M: MasterManager>(Rc<Node<M>>);

/// The sequence of the subtree behind an optional handle.
spec fn seq_of<M: MasterManager>(o: Option<NodeWrapper<M>>) -> Seq<M::T>
    decreases o,
{
    match o {
        Some(w) => w.0.seq(),
        None => Seq::empty(),
    }
}

/// Whether the subtree behind an optional handle is well formed.
spec fn wf_of<M: MasterManager>(o: Option<NodeWrapper<M>>) -> bool
    decreases o,
{
    match o {
        Some(w) => w.0.wf(),
        None => true,
    }
}

impl<M: MasterManager> Clone for NodeWrapper<M> {
    fn clone(&self) -> (r: Self)
        ensures
            r == *self,
    {
        NodeWrapper(self.0.clone())
    }
}

impl<M: MasterManager> Clone for Node<M> {
    /// A copy of this node alone: the children stay shared.
    fn clone(&self) -> (r: Self)
        ensures
            r == *self,
    {
        let val = self.val.clone();
        let info = self.info.clone();
        proof {
            M::clone_val_exact(self.val, val);
            M::clone_info_exact(self.info, info);
        }
        Node {
            val,
            info,
            idx: self.idx,
            rev: self.rev,
            left: self.left.clone(),
            right: self.right.clone(),
        }
    }
}

impl<M: MasterManager> Node<M> {
    /// The children's sequences around this node's element, before the
    /// buffered update and the pending reversal.
    spec fn raw(&self) -> Seq<M::T> {
        seq_of(self.left).push(self.val) + seq_of(self.right)
    }

    /// The elements of the subtree in the order that `info` describes.
    spec fn pend(&self) -> Seq<M::T> {
        pend_all::<M>(self.info, self.raw())
    }

    /// The sequence that the subtree stands for.
    spec fn seq(&self) -> Seq<M::T>
        decreases self,
    {
        let raw = seq_of(self.left).push(self.val) + seq_of(self.right);
        let pend = pend_all::<M>(self.info, raw);
        if self.rev {
            pend.reverse()
        } else {
            pend
        }
    }

    /// Number of elements in the subtree.
    spec fn size(&self) -> nat {
        self.raw().len()
    }

    /// `idx` counts the left subtree, the size fits a `usize`, `info`
    /// describes the elements, and the same holds below.
    spec fn wf(&self) -> bool
        decreases self,
    {
        &&& wf_of(self.left)
        &&& wf_of(self.right)
        &&& self.idx == seq_of(self.left).len()
        &&& seq_of(self.left).len() + 1 + seq_of(self.right).len() <= usize::MAX
        &&& M::describes(
            self.info,
            pend_all::<M>(self.info, seq_of(self.left).push(self.val) + seq_of(self.right)),
        )
    }

    /// Nothing is waiting at this node: no update and no reversal.
    spec fn flushed(&self) -> bool {
        !self.rev && settled::<M>(self.info)
    }

    proof fn lemma_size(&self)
        requires
            self.wf(),
        ensures
            self.seq().len() == self.size(),
            self.size() == self.idx + 1 + seq_of(self.right).len(),
            self.size() >= 1,
            self.size() <= usize::MAX,
            self.flushed() ==> self.seq() =~= self.raw(),
    {
    }

    /// The same node with `above` pushed into its `info`.
    proof fn lemma_pushed(&self, after: &Self, above: M::Info)
        requires
            self.wf(),
            *after == (Node { info: after.info, ..*self }),
            info_pushed::<M>(above, self.info, after.info, self.size() as usize),
        ensures
            after.wf(),
            after.seq() =~= pend_all::<M>(above, self.seq()),
    {
        self.lemma_size();
        assert(after.pend() =~= pend_all::<M>(above, self.pend()));
    }

    /// The same node with `lazy` applied to its `info`.
    proof fn lemma_acted(&self, after: &Self, lazy: M::Lazy)
        requires
            self.wf(),
            *after == (Node { info: after.info, ..*self }),
            info_acted::<M>(self.info, after.info, self.size() as usize, lazy),
        ensures
            after.wf(),
            after.seq() =~= act_all::<M>(lazy, self.seq()),
    {
        self.lemma_size();
        assert(after.pend() =~= act_all::<M>(lazy, self.pend()));
    }

    /// The same node with its reversal flag flipped.
    proof fn lemma_toggled(&self, after: &Self)
        requires
            self.wf(),
            *after == (Node { rev: !self.rev, ..*self }),
        ensures
            after.wf(),
            after.seq() =~= self.seq().reverse(),
    {
    }
}

impl<M: MasterManager> NodeWrapper<M> {
    /// The node for writing: the node itself where this handle is the only
    /// one, else a fresh copy of it that this handle now points to.
    fn as_mut(&mut self) -> (node: &mut Node<M>)
        ensures
            *node == *old(self).0,
            *final(self).0 == *final(node),
    {
        rc_make_mut(&mut self.0)
    }
}

impl<M: MasterManager> Node<M> {
    /// Flushes what waits at this node: pushes the buffered update into the
    /// element and the children, and carries out a pending reversal by
    /// swapping the children and leaving the flag with them.
    fn setup(&mut self, len: usize)
        requires
            old(self).wf(),
            len == old(self).size(),
        ensures
            final(self).wf(),
            final(self).flushed(),
            final(self).seq() == old(self).seq(),
            final(self).size() == len,
    {
        proof {
            old(self).lemma_size();
        }
        let idx = self.idx;
        let ghost before = *self;
        let left = match &mut self.left {
            Some(c) => Some(&mut c.as_mut().info),
            None => None,
        };
        let right = match &mut self.right {
            Some(c) => Some(&mut c.as_mut().info),
            None => None,
        };
        M::propagate(&mut self.info, (left, idx), &mut self.val, (right, len - 1 - idx));
        proof {
            if before.left.is_some() {
                before.left.unwrap().0.lemma_pushed(&*self.left.unwrap().0, before.info);
            }
            if before.right.is_some() {
                before.right.unwrap().0.lemma_pushed(&*self.right.unwrap().0, before.info);
            }
            assert(self.raw() =~= before.pend());
            assert(self.pend() =~= self.raw());
        }
        if self.rev {
            let ghost pushed = *self;
            M::rev(&mut self.info, len);
            std::mem::swap(&mut self.left, &mut self.right);
            if let Some(c) = &mut self.left {
                let node = c.as_mut();
                node.rev = !node.rev;
            }
            if let Some(c) = &mut self.right {
                let node = c.as_mut();
                node.rev = !node.rev;
            }
            self.idx = len - idx - 1;
            self.rev = false;
            proof {
                if pushed.left.is_some() {
                    pushed.left.unwrap().0.lemma_toggled(&*self.right.unwrap().0);
                }
                if pushed.right.is_some() {
                    pushed.right.unwrap().0.lemma_toggled(&*self.left.unwrap().0);
                }
                assert(self.raw() =~= pushed.raw().reverse());
                assert(self.pend() =~= self.raw());
            }
        }
    }

    /// Computes `info` anew from the element and the children. A child that
    /// still waits to be reversed is flushed first, so that its `info`
    /// describes it in the order in which it stands.
    fn update(&mut self, len: usize)
        requires
            wf_of(old(self).left),
            wf_of(old(self).right),
            !old(self).rev,
            old(self).idx == seq_of(old(self).left).len(),
            len == old(self).idx + 1 + seq_of(old(self).right).len(),
        ensures
            final(self).wf(),
            final(self).flushed(),
            final(self).seq() == seq_of(old(self).left).push(old(self).val) + seq_of(
                old(self).right,
            ),
            final(self).size() == len,
    {
        let idx = self.idx;
        NodeWrapper::settle(&mut self.left, idx);
        NodeWrapper::settle(&mut self.right, len - 1 - idx);
        let left = match &self.left {
            Some(c) => Some(&c.0.info),
            None => None,
        };
        let right = match &self.right {
            Some(c) => Some(&c.0.info),
            None => None,
        };
        let info = M::make_info((left, idx), &self.val, (right, len - 1 - idx));
        proof {
            if self.left.is_some() {
                self.left.unwrap().0.lemma_size();
            }
            if self.right.is_some() {
                self.right.unwrap().0.lemma_size();
            }
            assert(side_describes::<M>((left, idx), seq_of(self.left)));
            assert(side_describes::<M>((right, (len - 1 - idx) as usize), seq_of(self.right)));
        }
        self.info = info;
        proof {
            assert(self.pend() =~= self.raw());
        }
    }
}

impl<M: MasterManager> NodeWrapper<M> {
    /// A subtree of the one element `item`.
    fn new(item: M::T) -> (r: Self)
        ensures
            r.0.wf(),
            r.0.flushed(),
            r.0.seq() == seq![item],
    {
        let info = M::make_info((None, 0), &item, (None, 0));
        let r = NodeWrapper(
            Rc::new(Node { val: item, info, idx: 0, rev: false, left: None, right: None }),
        );
        proof {
            assert(side_describes::<M>((None, 0), Seq::<M::T>::empty()));
            assert(r.0.raw() =~= seq![item]);
            assert(r.0.pend() =~= r.0.raw());
            assert(Seq::<M::T>::empty().push(item) + Seq::<M::T>::empty() =~= r.0.raw());
        }
        r
    }

    /// Flushes the node behind this handle and hands it out for writing.
    fn setup(&mut self, len: usize) -> (node: &mut Node<M>)
        requires
            old(self).0.wf(),
            len == old(self).0.size(),
        ensures
            node.wf(),
            node.flushed(),
            node.seq() == old(self).0.seq(),
            node.size() == len,
            *final(self).0 == *final(node),
    {
        let node = self.as_mut();
        node.setup(len);
        node
    }
}

impl<M: MasterManager> NodeWrapper<M> {
    /// Carries out the reversal that waits at the root of a subtree, if one
    /// does: the `info` of the root then describes the subtree as it stands.
    fn settle(slot: &mut Option<Self>, len: usize)
        requires
            wf_of(*old(slot)),
            len == seq_of(*old(slot)).len(),
        ensures
            wf_of(*final(slot)),
            seq_of(*final(slot)) == seq_of(*old(slot)),
            final(slot).is_some() == old(slot).is_some(),
            final(slot).is_some() ==> !final(slot).unwrap().0.rev,
    {
        if let Some(c) = slot {
            proof {
                c.0.lemma_size();
            }
            if c.0.rev {
                c.setup(len);
            }
        }
    }

    /// A subtree with `val` at the root, between the subtrees `left` and
    /// `right` of `llen` and `rlen` elements.
    fn join(left: Option<Self>, llen: usize, val: M::T, right: Option<Self>, rlen: usize) -> (r:
        Self)
        requires
            wf_of(left),
            wf_of(right),
            llen == seq_of(left).len(),
            rlen == seq_of(right).len(),
            llen + 1 + rlen <= usize::MAX,
        ensures
            r.0.wf(),
            r.0.flushed(),
            r.0.seq() == seq_of(left).push(val) + seq_of(right),
    {
        let mut left = left;
        let mut right = right;
        Self::settle(&mut left, llen);
        Self::settle(&mut right, rlen);
        let li = match &left {
            Some(c) => Some(&c.0.info),
            None => None,
        };
        let ri = match &right {
            Some(c) => Some(&c.0.info),
            None => None,
        };
        let info = M::make_info((li, llen), &val, (ri, rlen));
        proof {
            if left.is_some() {
                left.unwrap().0.lemma_size();
            }
            if right.is_some() {
                right.unwrap().0.lemma_size();
            }
            assert(side_describes::<M>((li, llen), seq_of(left)));
            assert(side_describes::<M>((ri, rlen), seq_of(right)));
        }
        let r = NodeWrapper(Rc::new(Node { val, info, idx: llen, rev: false, left, right }));
        proof {
            assert(r.0.pend() =~= r.0.raw());
        }
        r
    }

    /// Joins two subtrees into one that holds the elements of `lhs` followed
    /// by those of `rhs`. Each tuple is a subtree and its size. The root of
    /// the result is that of `lhs` with probability `lhs.1 / (lhs.1 + rhs.1)`.
    fn merge(lhs: (Self, usize), rhs: (Self, usize), rng: &mut Rng) -> (r: Self)
        requires
            lhs.0.0.wf(),
            rhs.0.0.wf(),
            lhs.1 == lhs.0.0.size(),
            rhs.1 == rhs.0.0.size(),
            lhs.1 + rhs.1 <= usize::MAX,
        ensures
            r.0.wf(),
            r.0.seq() == lhs.0.0.seq() + rhs.0.0.seq(),
            drawn(*old(rng), *final(rng)),
        decreases lhs.1 + rhs.1,
    {
        proof {
            lhs.0.0.lemma_size();
            rhs.0.0.lemma_size();
        }
        let len = lhs.1 + rhs.1;
        let ghost before = *rng;
        let first = rng.pick(lhs.1, rhs.1);
        let ghost once = *rng;
        proof {
            lemma_drawn_one(before, once);
            lemma_drawn_none(once);
        }
        if first {
            let mut ret = lhs.0;
            let node = ret.setup(lhs.1);
            proof {
                node.lemma_size();
            }
            let ghost top = *node;
            let joined = match node.right.take() {
                Some(k) => Self::merge((k, lhs.1 - 1 - node.idx), rhs, rng),
                None => rhs.0,
            };
            proof {
                lemma_drawn_more(before, once, *rng);
                joined.0.lemma_size();
                assert(seq_of(top.left).push(top.val) + joined.0.seq() =~= top.raw()
                    + rhs.0.0.seq());
            }
            node.right = Some(joined);
            node.update(len);
            ret
        } else {
            let mut ret = rhs.0;
            let node = ret.setup(rhs.1);
            proof {
                node.lemma_size();
            }
            let ghost top = *node;
            let idx = node.idx;
            let shift = lhs.1;
            let joined = match node.left.take() {
                Some(k) => Self::merge(lhs, (k, idx), rng),
                None => lhs.0,
            };
            proof {
                lemma_drawn_more(before, once, *rng);
                joined.0.lemma_size();
                assert(joined.0.seq().push(top.val) + seq_of(top.right) =~= lhs.0.0.seq()
                    + top.raw());
            }
            node.left = Some(joined);
            node.idx = idx + shift;
            node.update(len);
            ret
        }
    }

    /// Cuts a subtree of `len` elements into its first `index` elements and
    /// the rest. A side without elements is `None`.
    fn split(this: Option<Self>, len: usize, index: usize) -> (r: (Option<Self>, Option<Self>))
        requires
            wf_of(this),
            len == seq_of(this).len(),
            index <= len,
        ensures
            wf_of(r.0),
            wf_of(r.1),
            seq_of(r.0) == seq_of(this).subrange(0, index as int),
            seq_of(r.1) == seq_of(this).subrange(index as int, len as int),
            r.0.is_none() == (index == 0),
            r.1.is_none() == (index == len),
        decreases len,
    {
        let Some(mut this) = this else {
            return (None, None);
        };
        let ghost whole = this.0.seq();
        proof {
            this.0.lemma_size();
        }
        if index == 0 {
            assert(whole.subrange(0, len as int) =~= whole);
            return (None, Some(this));
        }
        if index == len {
            assert(whole.subrange(0, len as int) =~= whole);
            return (Some(this), None);
        }
        let node = this.setup(len);
        proof {
            node.lemma_size();
        }
        let ghost top = *node;
        let idx = node.idx;
        if index > idx {
            let (l, r) = Self::split(node.right.take(), len - 1 - idx, index - 1 - idx);
            node.right = l;
            node.update(index);
            proof {
                assert(node.seq() =~= whole.subrange(0, index as int));
                assert(seq_of(r) =~= whole.subrange(index as int, len as int));
            }
            (Some(this), r)
        } else {
            let (l, r) = Self::split(node.left.take(), idx, index);
            node.left = r;
            node.idx = idx - index;
            node.update(len - index);
            proof {
                assert(node.seq() =~= whole.subrange(index as int, len as int));
                assert(seq_of(l) =~= whole.subrange(0, index as int));
            }
            (l, Some(this))
        }
    }

    /// Puts `item` at position `index` of a subtree of `len` elements. With
    /// probability `1 / (len + 1)` the new element becomes the root.
    fn insert(this: &mut Option<Self>, len: usize, index: usize, item: M::T, rng: &mut Rng)
        requires
            wf_of(*old(this)),
            len == seq_of(*old(this)).len(),
            index <= len,
            len < usize::MAX,
        ensures
            wf_of(*final(this)),
            seq_of(*final(this)) == seq_of(*old(this)).insert(index as int, item),
            drawn(*old(rng), *final(rng)),
        decreases len,
    {
        let ghost whole = seq_of(*this);
        let ghost before = *rng;
        proof {
            lemma_drawn_none(before);
        }
        let Some(v) = this else {
            *this = Some(Self::new(item));
            assert(seq![item] =~= whole.insert(index as int, item));
            return ;
        };
        proof {
            v.0.lemma_size();
        }
        let first = rng.pick(len, 1);
        let ghost once = *rng;
        proof {
            lemma_drawn_one(before, once);
        }
        if first {
            let node = v.setup(len);
            proof {
                node.lemma_size();
            }
            let ghost top = *node;
            let idx = node.idx;
            if index > idx {
                Self::insert(&mut node.right, len - 1 - idx, index - 1 - idx, item, rng);
            } else {
                Self::insert(&mut node.left, idx, index, item, rng);
                node.idx = idx + 1;
            }
            node.update(len + 1);
            proof {
                lemma_drawn_more(before, once, *rng);
                assert(node.seq() =~= whole.insert(index as int, item));
            }
        } else {
            let (l, r) = Self::split(this.take(), len, index);
            let node = Self::join(l, index, item, r, len - index);
            proof {
                assert(node.0.seq() =~= whole.insert(index as int, item));
            }
            *this = Some(node);
        }
    }
}

/// The product of a sequence in two parts is the product of the parts.
pub proof fn lemma_fold_concat<M: MasterModel>(a: Seq<M::T>, b: Seq<M::T>)
    ensures
        fold::<M>(a + b) == M::op_spec(fold::<M>(a), fold::<M>(b)),
    decreases b.len(),
{
    if b.len() == 0 {
        assert(a + b =~= a);
        M::op_identity(fold::<M>(a));
    } else {
        assert((a + b).drop_last() =~= a + b.drop_last());
        lemma_fold_concat::<M>(a, b.drop_last());
        M::op_associative(fold::<M>(a), fold::<M>(b.drop_last()), M::val2prod_spec(b.last()));
    }
}

/// The product of one element is that element's product.
pub proof fn lemma_fold_one<M: MasterModel>(v: M::T)
    ensures
        fold::<M>(seq![v]) == M::val2prod_spec(v),
{
    assert(seq![v].drop_last() =~= Seq::<M::T>::empty());
    assert(fold::<M>(Seq::<M::T>::empty()) == M::e_spec());
    assert(seq![v].last() == v);
    M::op_identity(M::val2prod_spec(v));
}

impl<M: MasterManager> NodeWrapper<M> {
    /// Takes the element at `index` out of a subtree of `len` elements, and
    /// returns it with what is left of the subtree.
    #[verifier::rlimit(60)]
    fn remove(self, len: usize, index: usize, rng: &mut Rng) -> (r: (M::T, Option<Self>))
        requires
            self.0.wf(),
            len == self.0.size(),
            index < len,
        ensures
            r.0 == self.0.seq()[index as int],
            wf_of(r.1),
            seq_of(r.1) == self.0.seq().remove(index as int),
            drawn(*old(rng), *final(rng)),
        decreases len,
    {
        let ghost whole = self.0.seq();
        proof {
            lemma_drawn_none(*rng);
        }
        let mut this = self;
        let node = this.setup(len);
        proof {
            node.lemma_size();
        }
        let idx = node.idx;
        if index < idx {
            let (v, o) = node.left.take().unwrap().remove(idx, index, rng);
            node.left = o;
            node.idx = idx - 1;
            node.update(len - 1);
            proof {
                assert(node.seq() =~= whole.remove(index as int));
            }
            (v, Some(this))
        } else if index == idx {
            let l = node.left.take();
            let r = node.right.take();
            let val = match Rc::try_unwrap(this.0) {
                Ok(n) => n.val,
                Err(shared) => {
                    let held: &Node<M> = &*shared;
                    let val = held.val.clone();
                    proof {
                        M::clone_val_exact(held.val, val);
                    }
                    val
                },
            };
            let rest = match (l, r) {
                (None, v) => v,
                (v, None) => v,
                (Some(l), Some(r)) => Some(Self::merge((l, idx), (r, len - 1 - idx), rng)),
            };
            proof {
                assert(seq_of(rest) =~= whole.remove(index as int));
            }
            (val, rest)
        } else {
            let (v, o) = node.right.take().unwrap().remove(len - 1 - idx, index - 1 - idx, rng);
            node.right = o;
            node.update(len - 1);
            proof {
                assert(node.seq() =~= whole.remove(index as int));
            }
            (v, Some(this))
        }
    }

    /// The element at `index` of a subtree of `len` elements.
    fn index(&mut self, len: usize, index: usize) -> (r: M::T)
        requires
            old(self).0.wf(),
            len == old(self).0.size(),
            index < len,
        ensures
            final(self).0.wf(),
            final(self).0.seq() == old(self).0.seq(),
            r == old(self).0.seq()[index as int],
        decreases len,
    {
        let node = self.setup(len);
        proof {
            node.lemma_size();
        }
        let idx = node.idx;
        if index < idx {
            node.left.as_mut().unwrap().index(idx, index)
        } else if index == idx {
            let val = node.val.clone();
            proof {
                M::clone_val_exact(node.val, val);
            }
            val
        } else {
            node.right.as_mut().unwrap().index(len - 1 - idx, index - 1 - idx)
        }
    }

    /// Appends the elements of a subtree of `len` elements to `out`, in order.
    fn collect(&mut self, len: usize, out: &mut Vec<M::T>)
        requires
            old(self).0.wf(),
            len == old(self).0.size(),
        ensures
            final(self).0.wf(),
            final(self).0.seq() == old(self).0.seq(),
            final(out)@ == old(out)@ + old(self).0.seq(),
        decreases len,
    {
        let node = self.setup(len);
        proof {
            node.lemma_size();
        }
        let idx = node.idx;
        if let Some(c) = &mut node.left {
            c.collect(idx, out);
        }
        let val = node.val.clone();
        proof {
            M::clone_val_exact(node.val, val);
        }
        out.push(val);
        if let Some(c) = &mut node.right {
            c.collect(len - 1 - idx, out);
        }
        proof {
            assert(out@ =~= old(out)@ + old(self).0.seq());
        }
    }

    /// Appends the outline of a subtree of `len` elements to `out`: where
    /// the subtree begins, the outline of its left side, its own element,
    /// the outline of its right side, and where it ends.
    fn outline(&mut self, len: usize, out: &mut Vec<Mark<M::T>>)
        requires
            old(self).0.wf(),
            len == old(self).0.size(),
        ensures
            final(self).0.wf(),
            final(self).0.seq() == old(self).0.seq(),
            final(out)@.len() == old(out)@.len() + 3 * len,
            final(out)@.subrange(0, old(out)@.len() as int) == old(out)@,
            items_of(final(out)@) == items_of(old(out)@) + old(self).0.seq(),
            depth_of(final(out)@) == depth_of(old(out)@),
        decreases len,
    {
        let node = self.setup(len);
        proof {
            node.lemma_size();
        }
        let idx = node.idx;
        let ghost first = out@;
        out.push(Mark::Open);
        proof {
            assert(out@.drop_last() =~= first);
            assert(out@.last() is Open);
            assert(depth_of(out@) == depth_of(first) + 1);
            assert(items_of(out@) == items_of(first));
        }
        let ghost top = *node;
        if let Some(c) = &mut node.left {
            c.outline(idx, out);
        }
        let val = node.val.clone();
        proof {
            M::clone_val_exact(node.val, val);
        }
        let ghost second = out@;
        out.push(Mark::Item(val));
        proof {
            assert(out@.drop_last() =~= second);
            assert(out@.last() is Item);
            assert(depth_of(out@) == depth_of(second));
            assert(items_of(second) =~= items_of(first) + seq_of(top.left));
            assert(items_of(out@) == items_of(second).push(val));
        }
        let ghost middle = out@;
        if let Some(c) = &mut node.right {
            c.outline(len - 1 - idx, out);
        }
        let ghost third = out@;
        out.push(Mark::Close);
        proof {
            assert(out@.drop_last() =~= third);
            assert(out@.last() is Close);
            assert(depth_of(out@) == depth_of(third) - 1);
            assert(items_of(third) =~= items_of(middle) + seq_of(top.right));
            assert(items_of(out@) == items_of(third));
            assert(old(self).0.seq() =~= seq_of(top.left).push(top.val) + seq_of(top.right));
            assert(items_of(out@) =~= items_of(old(out)@) + old(self).0.seq());
            assert(out@.subrange(0, old(out)@.len() as int) =~= old(out)@) by {
                assert(second.subrange(0, first.len() as int) =~= first);
                assert(third.subrange(0, second.len() as int) =~= second);
            }
        }
    }

    /// The product of the first `index` elements of a subtree of `len` elements.
    fn prod_left(&mut self, len: usize, index: usize) -> (r: M::Prod)
        requires
            old(self).0.wf(),
            len == old(self).0.size(),
            index <= len,
        ensures
            final(self).0.wf(),
            final(self).0.seq() == old(self).0.seq(),
            r == fold::<M>(old(self).0.seq().subrange(0, index as int)),
        decreases len,
    {
        let ghost whole = self.0.seq();
        if index == 0 {
            assert(whole.subrange(0, 0) =~= Seq::<M::T>::empty());
            return M::e();
        }
        let node = self.setup(len);
        proof {
            node.lemma_size();
        }
        if index == len {
            assert(whole.subrange(0, len as int) =~= node.pend());
            return M::info2prod(&node.info);
        }
        let idx = node.idx;
        let ghost ls = seq_of(node.left);
        let ghost rs = seq_of(node.right);
        if index <= idx {
            proof {
                assert(whole.subrange(0, index as int) =~= ls.subrange(0, index as int));
            }
            node.left.as_mut().unwrap().prod_left(idx, index)
        } else {
            let mut ret = M::e();
            if let Some(left) = node.left.as_mut() {
                ret = M::op(ret, left.prod_left(idx, idx));
                proof {
                    assert(ls.subrange(0, idx as int) =~= ls);
                }
            }
            proof {
                M::op_identity(fold::<M>(ls));
                M::op_identity(M::e_spec());
                lemma_fold_one::<M>(node.val);
                lemma_fold_concat::<M>(ls, seq![node.val]);
                assert(ls + seq![node.val] =~= ls.push(node.val));
            }
            ret = M::op(ret, M::val2prod(&node.val));
            assert(ret == fold::<M>(ls.push(node.val)));
            if index == idx + 1 {
                assert(whole.subrange(0, index as int) =~= ls.push(node.val));
                return ret;
            }
            let rest = node.right.as_mut().unwrap().prod_left(len - 1 - idx, index - 1 - idx);
            proof {
                let part = rs.subrange(0, index - 1 - idx);
                lemma_fold_concat::<M>(ls.push(node.val), part);
                assert(whole.subrange(0, index as int) =~= ls.push(node.val) + part);
            }
            M::op(ret, rest)
        }
    }

    /// The product of the elements from `index` on of a subtree of `len` elements.
    fn prod_right(&mut self, len: usize, index: usize) -> (r: M::Prod)
        requires
            old(self).0.wf(),
            len == old(self).0.size(),
            index <= len,
        ensures
            final(self).0.wf(),
            final(self).0.seq() == old(self).0.seq(),
            r == fold::<M>(old(self).0.seq().subrange(index as int, len as int)),
        decreases len,
    {
        let ghost whole = self.0.seq();
        proof {
            self.0.lemma_size();
        }
        if index == len {
            assert(whole.subrange(len as int, len as int) =~= Seq::<M::T>::empty());
            return M::e();
        }
        let node = self.setup(len);
        proof {
            node.lemma_size();
        }
        if index == 0 {
            assert(whole.subrange(0, len as int) =~= node.pend());
            return M::info2prod(&node.info);
        }
        let idx = node.idx;
        let ghost ls = seq_of(node.left);
        let ghost rs = seq_of(node.right);
        if index > idx + 1 {
            proof {
                assert(whole.subrange(index as int, len as int) =~= rs.subrange(
                    index - 1 - idx,
                    len - 1 - idx,
                ));
            }
            node.right.as_mut().unwrap().prod_right(len - 1 - idx, index - 1 - idx)
        } else {
            let mut ret = M::e();
            if let Some(right) = node.right.as_mut() {
                ret = M::op(right.prod_right(len - 1 - idx, 0), ret);
                proof {
                    assert(rs.subrange(0, len - 1 - idx) =~= rs);
                }
            }
            proof {
                M::op_identity(fold::<M>(rs));
                M::op_identity(M::e_spec());
            }
            assert(ret == fold::<M>(rs));
            if index == idx + 1 {
                assert(whole.subrange(index as int, len as int) =~= rs);
                return ret;
            }
            ret = M::op(M::val2prod(&node.val), ret);
            proof {
                lemma_fold_one::<M>(node.val);
                lemma_fold_concat::<M>(seq![node.val], rs);
            }
            if index == idx {
                assert(whole.subrange(index as int, len as int) =~= seq![node.val] + rs);
                return ret;
            }
            let rest = node.left.as_mut().unwrap().prod_right(idx, index);
            proof {
                let part = ls.subrange(index as int, idx as int);
                lemma_fold_concat::<M>(part, seq![node.val] + rs);
                assert(whole.subrange(index as int, len as int) =~= part + (seq![node.val] + rs));
            }
            M::op(rest, ret)
        }
    }

    /// The product of the elements at `left..right` of a subtree of `len` elements.
    fn prod(&mut self, len: usize, left: usize, right: usize) -> (r: M::Prod)
        requires
            old(self).0.wf(),
            len == old(self).0.size(),
            left <= right <= len,
        ensures
            final(self).0.wf(),
            final(self).0.seq() == old(self).0.seq(),
            r == fold::<M>(old(self).0.seq().subrange(left as int, right as int)),
        decreases len,
    {
        let ghost whole = self.0.seq();
        if left == 0 {
            return self.prod_left(len, right);
        }
        if right == len {
            return self.prod_right(len, left);
        }
        let node = self.setup(len);
        proof {
            node.lemma_size();
        }
        let idx = node.idx;
        let ghost ls = seq_of(node.left);
        let ghost rs = seq_of(node.right);
        if left <= idx && right <= idx {
            proof {
                assert(whole.subrange(left as int, right as int) =~= ls.subrange(
                    left as int,
                    right as int,
                ));
            }
            node.left.as_mut().unwrap().prod(idx, left, right)
        } else if left > idx && right > idx {
            proof {
                assert(whole.subrange(left as int, right as int) =~= rs.subrange(
                    left - 1 - idx,
                    right - 1 - idx,
                ));
            }
            node.right.as_mut().unwrap().prod(len - 1 - idx, left - 1 - idx, right - 1 - idx)
        } else {
            let before = node.left.as_mut().unwrap().prod_right(idx, left);
            let mid = M::val2prod(&node.val);
            let after = node.right.as_mut().unwrap().prod_left(len - 1 - idx, right - 1 - idx);
            proof {
                let a = ls.subrange(left as int, idx as int);
                let b = rs.subrange(0, right - 1 - idx);
                lemma_fold_one::<M>(node.val);
                lemma_fold_concat::<M>(a, seq![node.val]);
                lemma_fold_concat::<M>(a + seq![node.val], b);
                assert(whole.subrange(left as int, right as int) =~= (a + seq![node.val]) + b);
            }
            M::op(M::op(before, mid), after)
        }
    }
}

impl<M: MasterManager> NodeWrapper<M> {
    /// Applies `lazy` to the whole subtree of `len` elements, by leaving it
    /// in the `info` of the root.
    fn apply_all(&mut self, len: usize, lazy: &M::Lazy)
        requires
            old(self).0.wf(),
            len == old(self).0.size(),
        ensures
            final(self).0.wf(),
            final(self).0.seq() == act_all::<M>(*lazy, old(self).0.seq()),
    {
        let node = self.as_mut();
        let ghost before = *node;
        M::apply_info(&mut node.info, len, lazy);
        proof {
            before.lemma_acted(&*node, *lazy);
        }
    }

    /// Applies `lazy` to the first `index` elements of a subtree of `len` elements.
    fn apply_left(&mut self, len: usize, index: usize, lazy: &M::Lazy)
        requires
            old(self).0.wf(),
            len == old(self).0.size(),
            index <= len,
        ensures
            final(self).0.wf(),
            final(self).0.seq() == act_range::<M>(*lazy, old(self).0.seq(), 0, index as int),
        decreases len,
    {
        let ghost whole = self.0.seq();
        proof {
            self.0.lemma_size();
        }
        if index == 0 {
            assert(whole =~= act_range::<M>(*lazy, whole, 0, 0));
            return ;
        }
        if index == len {
            self.apply_all(len, lazy);
            assert(act_all::<M>(*lazy, whole) =~= act_range::<M>(*lazy, whole, 0, len as int));
            return ;
        }
        let node = self.setup(len);
        proof {
            node.lemma_size();
        }
        let idx = node.idx;
        if index <= idx {
            node.left.as_mut().unwrap().apply_left(idx, index, lazy);
        } else {
            if let Some(left) = node.left.as_mut() {
                left.apply_all(idx, lazy);
            }
            M::apply_val(&mut node.val, lazy);
            node.right.as_mut().unwrap().apply_left(len - 1 - idx, index - 1 - idx, lazy);
        }
        node.update(len);
        proof {
            assert(node.seq() =~= act_range::<M>(*lazy, whole, 0, index as int));
        }
    }

    /// Applies `lazy` to the elements from `index` on of a subtree of `len` elements.
    fn apply_right(&mut self, len: usize, index: usize, lazy: &M::Lazy)
        requires
            old(self).0.wf(),
            len == old(self).0.size(),
            index <= len,
        ensures
            final(self).0.wf(),
            final(self).0.seq() == act_range::<M>(
                *lazy,
                old(self).0.seq(),
                index as int,
                len as int,
            ),
        decreases len,
    {
        let ghost whole = self.0.seq();
        proof {
            self.0.lemma_size();
        }
        if index == 0 {
            self.apply_all(len, lazy);
            assert(act_all::<M>(*lazy, whole) =~= act_range::<M>(*lazy, whole, 0, len as int));
            return ;
        }
        if index == len {
            assert(whole =~= act_range::<M>(*lazy, whole, len as int, len as int));
            return ;
        }
        let node = self.setup(len);
        proof {
            node.lemma_size();
        }
        let idx = node.idx;
        if index > idx + 1 {
            node.right.as_mut().unwrap().apply_right(len - 1 - idx, index - 1 - idx, lazy);
        } else {
            if let Some(right) = node.right.as_mut() {
                right.apply_all(len - 1 - idx, lazy);
            }
            if index <= idx {
                M::apply_val(&mut node.val, lazy);
                if index < idx {
                    node.left.as_mut().unwrap().apply_right(idx, index, lazy);
                }
            }
        }
        node.update(len);
        proof {
            assert(node.seq() =~= act_range::<M>(*lazy, whole, index as int, len as int));
        }
    }

    /// Applies `lazy` to the elements at `left..right` of a subtree of `len` elements.
    fn apply(&mut self, len: usize, left: usize, right: usize, lazy: &M::Lazy)
        requires
            old(self).0.wf(),
            len == old(self).0.size(),
            left <= right <= len,
        ensures
            final(self).0.wf(),
            final(self).0.seq() == act_range::<M>(
                *lazy,
                old(self).0.seq(),
                left as int,
                right as int,
            ),
        decreases len,
    {
        let ghost whole = self.0.seq();
        if left == 0 {
            self.apply_left(len, right, lazy);
            return ;
        }
        if right == len {
            self.apply_right(len, left, lazy);
            return ;
        }
        let node = self.setup(len);
        proof {
            node.lemma_size();
        }
        let idx = node.idx;
        if left <= idx && right <= idx {
            node.left.as_mut().unwrap().apply(idx, left, right, lazy);
        } else if left > idx && right > idx {
            node.right.as_mut().unwrap().apply(
                len - 1 - idx,
                left - 1 - idx,
                right - 1 - idx,
                lazy,
            );
        } else {
            if let Some(l) = node.left.as_mut() {
                l.apply_right(idx, left, lazy);
            }
            if let Some(r) = node.right.as_mut() {
                r.apply_left(len - 1 - idx, right - 1 - idx, lazy);
            }
            M::apply_val(&mut node.val, lazy);
        }
        node.update(len);
        proof {
            assert(node.seq() =~= act_range::<M>(*lazy, whole, left as int, right as int));
        }
    }
}

/// A sequence of `M::T` kept in a randomized balanced tree.
///
/// Clones share their nodes: a clone costs one counter, and a tree that is
/// written to copies the nodes it touches if another tree still holds them.
pub struct MasterTree<M: MasterManager>(Option<NodeWrapper<M>>, usize, Rng);

impl<M: MasterManager> View for MasterTree<M> {
    type V = Seq<M::T>;

    /// The elements, in order.
    closed spec fn view(&self) -> Seq<M::T> {
        seq_of(self.0)
    }
}

impl<M: MasterManager> Clone for MasterTree<M> {
    /// A second tree with the same elements. Nothing is copied but the handle
    /// of the root: what is later written to one of the two never shows in
    /// the other.
    fn clone(&self) -> (r: Self)
        ensures
            r@ == self@,
            r.wf() == self.wf(),
            r.generator() == self.generator(),
    {
        MasterTree(self.0.clone(), self.1, self.2)
    }
}

impl<M: MasterManager> MasterTree<M> {
    /// The stored length is that of the sequence, and every node keeps the
    /// size of its left subtree and a summary of the elements below it.
    pub closed spec fn wf(&self) -> bool {
        &&& wf_of(self.0)
        &&& self.1 == seq_of(self.0).len()
    }

    /// The generator that decides where the tree is balanced.
    pub closed spec fn generator(&self) -> Rng {
        self.2
    }

    /// The empty sequence.
    pub fn new() -> (r: Self)
        ensures
            r.wf(),
            r@ == Seq::<M::T>::empty(),
            r.generator().0 == RNG_SEED,
    {
        MasterTree(None, 0, Rng::new())
    }

    /// The empty sequence, with `rng` to balance it by.
    pub fn with_rng(rng: Rng) -> (r: Self)
        ensures
            r.wf(),
            r@ == Seq::<M::T>::empty(),
            r.generator() == rng,
    {
        MasterTree(None, 0, rng)
    }

    /// Number of elements.
    pub fn len(&self) -> (r: usize)
        requires
            self.wf(),
        ensures
            r == self@.len(),
    {
        self.1
    }

    /// The elements of `self` followed by those of `rhs`, as one tree.
    pub fn merge(self, rhs: Self) -> (r: Self)
        requires
            self.wf(),
            rhs.wf(),
            self@.len() + rhs@.len() <= usize::MAX,
        ensures
            r.wf(),
            r@ == self@ + rhs@,
            drawn(self.generator(), r.generator()),
    {
        let mut rng = self.2;
        proof {
            lemma_drawn_none(rng);
        }
        let new_len = self.1 + rhs.1;
        let left_len = self.1;
        let right_len = rhs.1;
        let root = match (self.0, rhs.0) {
            (None, v) => v,
            (v, None) => v,
            (Some(l), Some(r)) => Some(NodeWrapper::merge((l, left_len), (r, right_len), &mut rng)),
        };
        proof {
            if root.is_some() {
                root.unwrap().0.lemma_size();
            }
            assert(seq_of(root) =~= self@ + rhs@);
        }
        MasterTree(root, new_len, rng)
    }

    /// The first `index` elements and the rest, as two trees.
    pub fn split(self, index: usize) -> (r: (Self, Self))
        requires
            self.wf(),
            index <= self@.len(),
        ensures
            r.0.wf(),
            r.1.wf(),
            r.0@ == self@.subrange(0, index as int),
            r.1@ == self@.subrange(index as int, self@.len() as int),
            r.0.generator() == self.generator(),
            r.1.generator().0 == rng_remix(rng_step(self.generator().0)),
    {
        let mut rng = self.2;
        let len = self.1;
        let (l, r) = NodeWrapper::split(self.0, len, index);
        let left_rng = rng;
        let right_rng = rng.make();
        (MasterTree(l, index, left_rng), MasterTree(r, len - index, right_rng))
    }

    /// Puts `item` in front of the element at `index`, or behind the last
    /// element where `index` is the length.
    pub fn insert(&mut self, index: usize, item: M::T)
        requires
            old(self).wf(),
            index <= old(self)@.len(),
            old(self)@.len() < usize::MAX,
        ensures
            final(self).wf(),
            final(self)@ == old(self)@.insert(index as int, item),
            final(self)@.len() == old(self)@.len() + 1,
            drawn(old(self).generator(), final(self).generator()),
    {
        let new_len = self.1 + 1;
        NodeWrapper::insert(&mut self.0, self.1, index, item, &mut self.2);
        self.1 = new_len;
    }

    /// Takes the element at `index` out and returns it.
    pub fn remove(&mut self, index: usize) -> (r: M::T)
        requires
            old(self).wf(),
            index < old(self)@.len(),
        ensures
            final(self).wf(),
            r == old(self)@[index as int],
            final(self)@ == old(self)@.remove(index as int),
            final(self)@.len() == old(self)@.len() - 1,
            drawn(old(self).generator(), final(self).generator()),
    {
        let (r, o) = self.0.take().unwrap().remove(self.1, index, &mut self.2);
        self.1 = self.1 - 1;
        self.0 = o;
        r
    }

    /// Reverses the order of the elements. Only the root is marked: the
    /// nodes below are turned round when they are next visited.
    pub fn reverse(&mut self)
        requires
            old(self).wf(),
        ensures
            final(self).wf(),
            final(self)@ == old(self)@.reverse(),
            final(self).generator() == old(self).generator(),
    {
        if let Some(root) = &mut self.0 {
            let node = root.as_mut();
            let ghost before = *node;
            node.rev = !node.rev;
            proof {
                before.lemma_toggled(&*node);
                before.lemma_size();
            }
        } else {
            assert(Seq::<M::T>::empty().reverse() =~= Seq::<M::T>::empty());
        }
    }

    /// The element at `index`.
    pub fn get(&mut self, index: usize) -> (r: M::T)
        requires
            old(self).wf(),
            index < old(self)@.len(),
        ensures
            final(self).wf(),
            final(self)@ == old(self)@,
            final(self).generator() == old(self).generator(),
            r == old(self)@[index as int],
    {
        let len = self.1;
        let r = self.0.as_mut().unwrap().index(len, index);
        proof {
            self.0.unwrap().0.lemma_size();
        }
        r
    }

    /// The elements from first to last.
    pub fn iter(&mut self) -> (r: Vec<M::T>)
        requires
            old(self).wf(),
        ensures
            final(self).wf(),
            final(self)@ == old(self)@,
            final(self).generator() == old(self).generator(),
            r@ == old(self)@,
    {
        let mut out: Vec<M::T> = Vec::new();
        let len = self.1;
        if let Some(root) = &mut self.0 {
            root.collect(len, &mut out);
            proof {
                root.0.lemma_size();
            }
        }
        assert(out@ =~= old(self)@);
        out
    }

    /// The outline of the tree as it is balanced now: for every node where
    /// its subtree begins, what stands on its left, its element, what
    /// stands on its right, and where its subtree ends. The elements of
    /// the outline are those of the sequence, in order, and every subtree
    /// that begins ends.
    pub fn outline(&mut self) -> (r: Vec<Mark<M::T>>)
        requires
            old(self).wf(),
        ensures
            final(self).wf(),
            final(self)@ == old(self)@,
            final(self).generator() == old(self).generator(),
            r@.len() == 3 * old(self)@.len(),
            items_of(r@) == old(self)@,
            depth_of(r@) == 0,
    {
        let mut out: Vec<Mark<M::T>> = Vec::new();
        let len = self.1;
        if let Some(root) = &mut self.0 {
            root.outline(len, &mut out);
            proof {
                root.0.lemma_size();
            }
        }
        assert(items_of(out@) =~= old(self)@);
        out
    }

    /// The product of the elements in `range`, from left to right.
    pub fn prod<R: IndexRange>(&mut self, range: R) -> (r: M::Prod)
        requires
            old(self).wf(),
            range_within(&range, old(self)@.len() as int),
        ensures
            final(self).wf(),
            final(self)@ == old(self)@,
            final(self).generator() == old(self).generator(),
            r == fold::<M>(
                old(self)@.subrange(range_lower(&range), range_upper(&range,
                    old(self)@.len() as int)),
            ),
    {
        let len = self.1;
        let (left, right) = normalize(&range, len);
        if left == right {
            assert(self@.subrange(left as int, right as int) =~= Seq::<M::T>::empty());
            return M::e();
        }
        let r = self.0.as_mut().unwrap().prod(len, left, right);
        proof {
            self.0.unwrap().0.lemma_size();
        }
        r
    }

    /// Applies `lazy` to each element in `range`, and to no other.
    pub fn apply<R: IndexRange>(&mut self, range: R, lazy: &M::Lazy)
        requires
            old(self).wf(),
            range_within(&range, old(self)@.len() as int),
        ensures
            final(self).wf(),
            final(self)@ == act_range::<M>(
                *lazy,
                old(self)@,
                range_lower(&range),
                range_upper(&range, old(self)@.len() as int),
            ),
            final(self).generator() == old(self).generator(),
    {
        let len = self.1;
        let (left, right) = normalize(&range, len);
        if left == right {
            assert(self@ =~= act_range::<M>(*lazy, self@, left as int, right as int));
            return ;
        }
        self.0.as_mut().unwrap().apply(len, left, right, lazy);
        proof {
            self.0.unwrap().0.lemma_size();
        }
    }
}

/// Cutting a tree at any index and joining the two parts in their order
/// gives back the sequence, and with it the product of every range: where
/// `left` and `right` are what `split` makes of `whole` at `index`, and
/// `joined` is what `merge` makes of them, `joined` holds what `whole` held.
pub proof fn lemma_split_merge<M: MasterManager>(
    whole: MasterTree<M>,
    index: int,
    left: MasterTree<M>,
    right: MasterTree<M>,
    joined: MasterTree<M>,
)
    requires
        0 <= index <= whole@.len(),
        left@ == whole@.subrange(0, index),
        right@ == whole@.subrange(index, whole@.len() as int),
        joined@ == left@ + right@,
    ensures
        joined@ == whole@,
        forall|l: int, r: int|
            fold::<M>(#[trigger] joined@.subrange(l, r)) == fold::<M>(whole@.subrange(l, r)),
{
    assert(joined@ =~= whole@);
}

/// Reversing a tree twice gives back the sequence: where `once` is what
/// `reverse` makes of `tree`, and `twice` what it makes of `once`, `twice`
/// holds what `tree` held.
pub proof fn lemma_reverse_twice<M: MasterManager>(
    tree: MasterTree<M>,
    once: MasterTree<M>,
    twice: MasterTree<M>,
)
    requires
        once@ == tree@.reverse(),
        twice@ == once@.reverse(),
    ensures
        twice@ == tree@,
{
    assert(twice@ =~= tree@);
}

/// What is left of `s` once the elements at the places `at` have been taken
/// out, one after the other: each place counts in what the removals before
/// it have left.
pub open spec fn taken_out<T>(s: Seq<T>, at: Seq<int>) -> Seq<T>
    decreases at.len(),
{
    if at.len() == 0 {
        s
    } else {
        taken_out(s.remove(at[0]), at.drop_first())
    }
}

/// Whether each of the places `at` is one of a sequence of `len` elements
/// that has lost an element for each place before it.
pub open spec fn can_take_out(len: int, at: Seq<int>) -> bool {
    forall|i: int| 0 <= i < at.len() ==> 0 <= #[trigger] at[i] < len - i
}

/// Each `remove` takes one element off the length, whatever the places, and
/// taking out as many elements as there are empties the tree: where `after`
/// holds what is left of `before` once the elements at the places `at` have
/// been taken out, it is shorter by their number, and empty where that is
/// the length of `before`.
pub proof fn lemma_remove_all<M: MasterManager>(
    before: MasterTree<M>,
    at: Seq<int>,
    after: MasterTree<M>,
)
    requires
        can_take_out(before@.len() as int, at),
        after@ == taken_out(before@, at),
    ensures
        after@.len() == before@.len() - at.len(),
        at.len() == before@.len() ==> after@ == Seq::<M::T>::empty(),
{
    lemma_taken_out(before@, at);
    if at.len() == before@.len() {
        assert(after@ =~= Seq::<M::T>::empty());
    }
}

/// Taking out elements shortens a sequence by their number.
pub proof fn lemma_taken_out<T>(s: Seq<T>, at: Seq<int>)
    requires
        can_take_out(s.len() as int, at),
    ensures
        taken_out(s, at).len() == s.len() - at.len(),
    decreases at.len(),
{
    if at.len() > 0 {
        let rest = at.drop_first();
        assert(0 <= at[0] < s.len());
        assert forall|i: int| 0 <= i < rest.len()
            implies 0 <= #[trigger] rest[i] < s.len() - 1 - i by {
            assert(rest[i] == at[i + 1]);
        }
        lemma_taken_out(s.remove(at[0]), rest);
    }
}

/// What `insert` leaves at each index, whatever the generator draws: where
/// `after` holds what `before` held with `item` put in at `index`, it is
/// longer by one, `item` is at `index`, the elements in front of `index` are
/// where they were, and those from `index` on are one place further back.
pub proof fn lemma_insert_order<M: MasterManager>(
    before: MasterTree<M>,
    index: int,
    item: M::T,
    after: MasterTree<M>,
)
    requires
        0 <= index <= before@.len(),
        after@ == before@.insert(index, item),
    ensures
        after@.len() == before@.len() + 1,
        after@[index] == item,
        forall|i: int| 0 <= i < index ==> #[trigger] after@[i] == before@[i],
        forall|i: int| index < i <= before@.len() ==> #[trigger] after@[i] == before@[i - 1],
{
}

/// What `s` becomes once the elements `items` have been put in, one after
/// the other, each at its place in `at`: a place counts in what the
/// insertions before it have made.
pub open spec fn put_in<T>(s: Seq<T>, at: Seq<int>, items: Seq<T>) -> Seq<T>
    decreases at.len(),
{
    if at.len() == 0 {
        s
    } else {
        put_in(s.insert(at[0], items[0]), at.drop_first(), items.drop_first())
    }
}

/// Whether each of the places `at` is one of a sequence of `len` elements
/// that has gained an element for each place before it, or the place behind
/// its last element.
pub open spec fn can_put_in(len: int, at: Seq<int>) -> bool {
    forall|i: int| 0 <= i < at.len() ==> 0 <= #[trigger] at[i] <= len + i
}

/// Insertions one after the other give the order in which they were made:
/// the sequence grows by their number; put in at the front each, the
/// elements stand in front in the opposite order; put in behind the last
/// element each, they stand behind in their order.
pub proof fn lemma_put_in<T>(s: Seq<T>, at: Seq<int>, items: Seq<T>)
    requires
        items.len() == at.len(),
        can_put_in(s.len() as int, at),
    ensures
        put_in(s, at, items).len() == s.len() + at.len(),
        (forall|i: int| 0 <= i < at.len() ==> #[trigger] at[i] == 0) ==> put_in(s, at, items)
            == items.reverse() + s,
        (forall|i: int| 0 <= i < at.len() ==> #[trigger] at[i] == s.len() + i) ==> put_in(
            s,
            at,
            items,
        ) == s + items,
    decreases at.len(),
{
    if at.len() == 0 {
        assert(items.reverse() + s =~= s);
        assert(s + items =~= s);
    } else {
        let next = s.insert(at[0], items[0]);
        let rest = at.drop_first();
        let more = items.drop_first();
        assert(0 <= at[0] <= s.len());
        assert forall|i: int| 0 <= i < rest.len() implies 0 <= #[trigger] rest[i] <= next.len()
            + i by {
            assert(rest[i] == at[i + 1]);
        }
        lemma_put_in(next, rest, more);
        if forall|i: int| 0 <= i < at.len() ==> #[trigger] at[i] == 0 {
            assert forall|i: int| 0 <= i < rest.len() implies #[trigger] rest[i] == 0 by {
                assert(rest[i] == at[i + 1]);
            }
            assert(at[0] == 0);
            assert(more.reverse() + next =~= items.reverse() + s);
        }
        if forall|i: int| 0 <= i < at.len() ==> #[trigger] at[i] == s.len() + i {
            assert forall|i: int| 0 <= i < rest.len() implies #[trigger] rest[i] == next.len()
                + i by {
                assert(rest[i] == at[i + 1]);
            }
            assert(at[0] == s.len());
            assert(next + more =~= s + items);
        }
    }
}

/// Insertions into a tree, one after the other, give the order in which
/// they were made, whatever the generator draws: where `after` holds what
/// `before` held with `items` put in at the places `at`, what
/// `lemma_put_in` says of sequences holds of the two trees.
pub proof fn lemma_insert_all<M: MasterManager>(
    before: MasterTree<M>,
    at: Seq<int>,
    items: Seq<M::T>,
    after: MasterTree<M>,
)
    requires
        items.len() == at.len(),
        can_put_in(before@.len() as int, at),
        after@ == put_in(before@, at, items),
    ensures
        after@.len() == before@.len() + at.len(),
        (forall|i: int| 0 <= i < at.len() ==> #[trigger] at[i] == 0) ==> after@ == items.reverse()
            + before@,
        (forall|i: int| 0 <= i < at.len() ==> #[trigger] at[i] == before@.len() + i) ==> after@
            == before@ + items,
{
    lemma_put_in(before@, at, items);
}

/// What `apply` leaves at each index: the element with `lazy` applied once
/// where the index is in the range, and the element as it was where it is not.
pub proof fn lemma_act_range<M: MasterManager>(
    s: Seq<M::T>,
    lazy: M::Lazy,
    left: int,
    right: int,
    i: int,
)
    requires
        0 <= i < s.len(),
    ensures
        act_range::<M>(lazy, s, left, right).len() == s.len(),
        act_range::<M>(lazy, s, left, right)[i] == if left <= i < right {
            M::act(lazy, s[i])
        } else {
            s[i]
        },
{
}

} // verus!
