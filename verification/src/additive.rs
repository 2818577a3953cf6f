//! Addition on `i32` with wrap-around: as a commutative group, and as the
//! manager of a `MasterTree` that adds to ranges and sums them up.

use crate::lazysegtree::LazyMonoid;
use crate::mastertree::{
    act_all, fold, info_acted, pend_all, side_describes, MasterManager, MasterModel,
};
use crate::util::{Associativity, Commutativity, Identity, Inverse, Magma};
use vstd::arithmetic::div_mod::{lemma_add_mod_noop, lemma_mul_mod_noop, lemma_small_mod};
use vstd::prelude::*;
use vstd::wrapping::i32_specs::{signed_crop, wrapping_add, wrapping_mul, wrapping_sub};

verus! {

/// Adding with wrap-around is adding, then taking the residue.
pub proof fn lemma_add_is_crop(a: i32, b: i32)
    ensures
        wrapping_add(a, b) == signed_crop(a + b),
{
    let range = 0x1_0000_0000int;
    let x = a + b;
    if x > i32::MAX {
        vstd::arithmetic::div_mod::lemma_mod_multiples_vanish(1, x - range, range);
        lemma_small_mod((x - range + range) as nat, range as nat);
    } else if x < 0 {
        vstd::arithmetic::div_mod::lemma_mod_multiples_vanish(-1, x + range, range);
        lemma_small_mod((x + range) as nat, range as nat);
    } else {
        lemma_small_mod(x as nat, range as nat);
    }
}

/// Subtracting with wrap-around is subtracting, then taking the residue.
pub proof fn lemma_sub_is_crop(a: i32, b: i32)
    ensures
        wrapping_sub(a, b) == signed_crop(a - b),
{
    let range = 0x1_0000_0000int;
    let x = a - b;
    if x > i32::MAX {
        vstd::arithmetic::div_mod::lemma_mod_multiples_vanish(1, x - range, range);
        lemma_small_mod((x - range + range) as nat, range as nat);
    } else if x < 0 {
        vstd::arithmetic::div_mod::lemma_mod_multiples_vanish(-1, x + range, range);
        lemma_small_mod((x + range) as nat, range as nat);
    } else {
        lemma_small_mod(x as nat, range as nat);
    }
}

/// The residue of a number differs from it by a multiple of `2^32`.
pub proof fn lemma_crop_mod(x: int)
    ensures
        (signed_crop(x) as int) % 0x1_0000_0000 == x % 0x1_0000_0000,
{
    let range = 0x1_0000_0000int;
    let m = x % range;
    if m > i32::MAX {
        vstd::arithmetic::div_mod::lemma_mod_multiples_vanish(-1, m, range);
    }
    vstd::arithmetic::div_mod::lemma_mod_twice(x, range);
}

/// Numbers with the same remainder have the same residue.
pub proof fn lemma_crop_same(x: int, y: int)
    requires
        x % 0x1_0000_0000 == y % 0x1_0000_0000,
    ensures
        signed_crop(x) == signed_crop(y),
{
}

/// A residue may stand for its number in a sum.
pub proof fn lemma_crop_add(x: int, y: int)
    ensures
        signed_crop(signed_crop(x) + y) == signed_crop(x + y),
        signed_crop(x + signed_crop(y)) == signed_crop(x + y),
{
    let range = 0x1_0000_0000int;
    lemma_crop_mod(x);
    lemma_crop_mod(y);
    lemma_add_mod_noop(signed_crop(x) as int, y, range);
    lemma_add_mod_noop(x, y, range);
    lemma_add_mod_noop(x, signed_crop(y) as int, range);
}

/// A residue may stand for its number in a product.
pub proof fn lemma_crop_mul(x: int, y: int)
    ensures
        signed_crop(signed_crop(x) * signed_crop(y)) == signed_crop(x * y),
{
    let range = 0x1_0000_0000int;
    lemma_crop_mod(x);
    lemma_crop_mod(y);
    lemma_mul_mod_noop(signed_crop(x) as int, signed_crop(y) as int, range);
    lemma_mul_mod_noop(x, y, range);
}

/// An `i32` is its own residue.
pub proof fn lemma_crop_id(a: i32)
    ensures
        signed_crop(a as int) == a,
{
    let range = 0x1_0000_0000int;
    if a < 0 {
        vstd::arithmetic::div_mod::lemma_mod_multiples_vanish(1, a as int, range);
        lemma_small_mod((a + range) as nat, range as nat);
    } else {
        lemma_small_mod(a as nat, range as nat);
    }
}

/// The integers `i32` under addition with wrap-around.
#[derive(Clone, Copy)]
pub struct IntAdd;

impl Magma for IntAdd {
    type T = i32;

    open spec fn op_spec(&self, lhs: i32, rhs: i32) -> i32 {
        wrapping_add(lhs, rhs)
    }

    fn op(&self, lhs: &i32, rhs: &i32) -> (r: i32) {
        lhs.wrapping_add(*rhs)
    }
}

impl Identity for IntAdd {
    open spec fn e_spec(&self) -> i32 {
        0
    }

    fn e(&self) -> (r: i32) {
        0
    }

    proof fn identity(&self, a: i32) {
    }
}

impl Inverse for IntAdd {
    open spec fn inv_spec(&self, v: i32) -> i32 {
        wrapping_sub(0, v)
    }

    fn inv(&self, v: &i32) -> (r: i32) {
        0i32.wrapping_sub(*v)
    }

    proof fn cancels(&self, a: i32, b: i32) {
    }
}

impl Associativity for IntAdd {
    proof fn associative(&self, a: i32, b: i32, c: i32) {
    }
}

impl Commutativity for IntAdd {
    proof fn commutative(&self, a: i32, b: i32) {
    }
}

/// The sum of a sequence, as an integer.
pub open spec fn isum(s: Seq<i32>) -> int
    decreases s.len(),
{
    if s.len() == 0 {
        0
    } else {
        isum(s.drop_last()) + s.last()
    }
}

/// What a node of an `AddSum` tree keeps: the sum of its subtree, and what
/// is still to be added to every element below.
#[derive(Clone, Copy)]
pub struct AddSumInfo {
    pub sum: i32,
    pub add: i32,
}

/// The manager of a sequence of `i32` whose ranges are summed up and added
/// to, both with wrap-around.
pub struct AddSum;

impl MasterModel for AddSum {
    type T = i32;

    type Info = AddSumInfo;

    type Prod = i32;

    type Lazy = i32;

    open spec fn e_spec() -> i32 {
        0
    }

    open spec fn op_spec(left: i32, right: i32) -> i32 {
        wrapping_add(left, right)
    }

    open spec fn val2prod_spec(val: i32) -> i32 {
        val
    }

    open spec fn act(lazy: i32, val: i32) -> i32 {
        wrapping_add(val, lazy)
    }

    open spec fn pending(info: AddSumInfo, val: i32) -> i32 {
        wrapping_add(val, info.add)
    }

    open spec fn describes(info: AddSumInfo, s: Seq<i32>) -> bool {
        info.sum == signed_crop(isum(s))
    }

    proof fn op_associative(a: i32, b: i32, c: i32) {
    }

    proof fn op_identity(a: i32) {
    }

    proof fn clone_val_exact(a: i32, b: i32) {
    }

    proof fn clone_info_exact(a: AddSumInfo, b: AddSumInfo) {
    }
}

/// The product of a sequence under `AddSum` is the residue of its sum.
pub proof fn lemma_fold_is_sum(s: Seq<i32>)
    ensures
        fold::<AddSum>(s) == signed_crop(isum(s)),
    decreases s.len(),
{
    if s.len() == 0 {
        lemma_crop_id(0);
    } else {
        lemma_fold_is_sum(s.drop_last());
        lemma_add_is_crop(fold::<AddSum>(s.drop_last()), s.last());
        lemma_crop_add(isum(s.drop_last()), s.last() as int);
    }
}

proof fn lemma_isum_concat(a: Seq<i32>, b: Seq<i32>)
    ensures
        isum(a + b) == isum(a) + isum(b),
    decreases b.len(),
{
    if b.len() == 0 {
        assert(a + b =~= a);
    } else {
        assert((a + b).drop_last() =~= a + b.drop_last());
        lemma_isum_concat(a, b.drop_last());
    }
}

proof fn lemma_isum_reverse(s: Seq<i32>)
    ensures
        isum(s.reverse()) == isum(s),
    decreases s.len(),
{
    if s.len() > 0 {
        let init = s.drop_last();
        assert(s.reverse() =~= seq![s.last()] + init.reverse());
        lemma_isum_concat(seq![s.last()], init.reverse());
        lemma_isum_reverse(init);
        assert(seq![s.last()].drop_last() =~= Seq::<i32>::empty());
        assert(isum(Seq::<i32>::empty()) == 0);
        assert(seq![s.last()].last() == s.last());
        assert(isum(seq![s.last()]) == s.last());
    } else {
        assert(s.reverse() =~= s);
    }
}

/// Adding `lazy` to each of `n` elements adds `n * lazy` to their sum, up to
/// a multiple of `2^32`.
proof fn lemma_isum_acted(lazy: i32, s: Seq<i32>)
    ensures
        signed_crop(isum(act_all::<AddSum>(lazy, s))) == signed_crop(isum(s) + s.len() * lazy),
    decreases s.len(),
{
    let t = act_all::<AddSum>(lazy, s);
    if s.len() == 0 {
        assert(s.len() * lazy == 0);
    } else {
        let init = s.drop_last();
        assert(t.drop_last() =~= act_all::<AddSum>(lazy, init));
        lemma_isum_acted(lazy, init);
        lemma_add_is_crop(s.last(), lazy);
        // isum(t) == isum(t.drop_last()) + crop(last + lazy)
        lemma_crop_add(isum(t.drop_last()), s.last() + lazy);
        lemma_crop_add(isum(t.drop_last()), (s.last() + lazy) as int);
        lemma_crop_add(isum(init) + init.len() * lazy, (s.last() + lazy) as int);
        assert(isum(init) + init.len() * lazy + (s.last() + lazy) == isum(s) + s.len() * lazy)
            by (nonlinear_arith)
            requires
                isum(s) == isum(init) + s.last(),
                s.len() == init.len() + 1,
        ;
    }
}

/// The residue of a length, as the `i32` by which an update is multiplied.
fn crop_len(len: usize) -> (r: i32)
    ensures
        r == signed_crop(len as int),
{
    let low: u64 = (len as u64) % 0x1_0000_0000;
    if low > 0x7fff_ffff {
        (low as i64 - 0x1_0000_0000) as i32
    } else {
        low as i32
    }
}

/// `info` with `lazy` added to each of the `len` elements it stands for.
fn add_to_info(info: &mut AddSumInfo, len: usize, lazy: i32)
    ensures
        info_acted::<AddSum>(*old(info), *final(info), len, lazy),
        forall|s: Seq<i32>|
            s.len() == len && #[trigger] AddSum::describes(*old(info), s) ==> AddSum::describes(
                *final(info),
                pend_all::<AddSum>(AddSumInfo { sum: 0, add: lazy }, s),
            ),
{
    let ghost before = *info;
    let k = crop_len(len);
    info.sum = info.sum.wrapping_add(lazy.wrapping_mul(k));
    info.add = info.add.wrapping_add(lazy);
    proof {
        assert forall|s: Seq<i32>| s.len() == len && #[trigger] AddSum::describes(
            before,
            s,
        ) implies AddSum::describes(*info, act_all::<AddSum>(lazy, s)) by {
            lemma_isum_acted(lazy, s);
            lemma_add_is_crop(before.sum, wrapping_mul(lazy, k));
            lemma_crop_id(lazy);
            lemma_crop_mul(lazy as int, len as int);
            lemma_crop_add(isum(s), (wrapping_mul(lazy, k)) as int);
            lemma_crop_add(isum(s), lazy * len);
            assert(lazy * len == len * lazy) by (nonlinear_arith);
        }
        assert forall|s: Seq<i32>| s.len() == len && #[trigger] AddSum::describes(
            before,
            s,
        ) implies AddSum::describes(
            *info,
            pend_all::<AddSum>(AddSumInfo { sum: 0, add: lazy }, s),
        ) by {
            assert(pend_all::<AddSum>(AddSumInfo { sum: 0, add: lazy }, s) =~= act_all::<AddSum>(
                lazy,
                s,
            ));
        }
    }
}

impl MasterManager for AddSum {
    fn make_info(
        left: (Option<&AddSumInfo>, usize),
        mid: &i32,
        right: (Option<&AddSumInfo>, usize),
    ) -> (r: AddSumInfo) {
        let l = match left.0 {
            Some(info) => info.sum,
            None => 0,
        };
        let r = match right.0 {
            Some(info) => info.sum,
            None => 0,
        };
        let out = AddSumInfo { sum: l.wrapping_add(*mid).wrapping_add(r), add: 0 };
        proof {
            assert forall|ls: Seq<i32>, rs: Seq<i32>| #[trigger]
                side_describes::<AddSum>(left, ls) && #[trigger] side_describes::<AddSum>(
                    right,
                    rs,
                ) implies AddSum::describes(out, ls.push(*mid) + rs) by {
                lemma_isum_concat(ls.push(*mid), rs);
                assert(ls.push(*mid).drop_last() =~= ls);
                lemma_crop_id(0);
                lemma_add_is_crop(l, *mid);
                lemma_add_is_crop(wrapping_add(l, *mid), r);
                lemma_crop_add(isum(ls), *mid as int);
                lemma_crop_add(isum(ls) + *mid, isum(rs));
                lemma_crop_add(l + *mid, r as int);
                lemma_crop_add(isum(ls) + *mid, r as int);
            }
        }
        out
    }

    fn rev(info: &mut AddSumInfo, len: usize) {
        proof {
            assert forall|s: Seq<i32>| s.len() == len && #[trigger] AddSum::describes(
                *info,
                s,
            ) implies AddSum::describes(*info, s.reverse()) by {
                lemma_isum_reverse(s);
            }
        }
    }

    fn apply_info(info: &mut AddSumInfo, len: usize, lazy: &i32) {
        add_to_info(info, len, *lazy);
    }

    fn apply_val(val: &mut i32, lazy: &i32) {
        *val = val.wrapping_add(*lazy);
    }

    fn propagate(
        info: &mut AddSumInfo,
        left: (Option<&mut AddSumInfo>, usize),
        val: &mut i32,
        right: (Option<&mut AddSumInfo>, usize),
    ) {
        let add = info.add;
        let ghost above = *info;
        *val = val.wrapping_add(add);
        if let Some(child) = left.0 {
            add_to_info(child, left.1, add);
        }
        if let Some(child) = right.0 {
            add_to_info(child, right.1, add);
        }
        info.add = 0;
        proof {
            assert forall|kept: AddSumInfo, s: Seq<i32>|
                pend_all::<AddSum>(AddSumInfo { sum: 0, add }, s) =~= #[trigger] pend_all::<AddSum>(
                    AddSumInfo { sum: kept.sum, add },
                    s,
                ) by {}
            assert(above == AddSumInfo { sum: above.sum, add });
        }
    }

    fn info2prod(info: &AddSumInfo) -> (r: i32) {
        proof {
            assert forall|s: Seq<i32>| #[trigger] AddSum::describes(*info, s) implies info.sum
                == fold::<AddSum>(s) by {
                lemma_fold_is_sum(s);
            }
        }
        info.sum
    }

    fn val2prod(val: &i32) -> (r: i32) {
        *val
    }

    fn e() -> (r: i32) {
        0
    }

    fn op(left: i32, right: i32) -> (r: i32) {
        left.wrapping_add(right)
    }
}

/// A residue may stand for its number on either side of a product.
pub proof fn lemma_crop_mul_one(x: int, y: int)
    ensures
        signed_crop(signed_crop(x) * y) == signed_crop(x * y),
        signed_crop(x * signed_crop(y)) == signed_crop(x * y),
{
    let range = 0x1_0000_0000int;
    lemma_crop_mod(x);
    lemma_crop_mod(y);
    lemma_mul_mod_noop(signed_crop(x) as int, y, range);
    lemma_mul_mod_noop(x, signed_crop(y) as int, range);
    lemma_mul_mod_noop(x, y, range);
}

/// Pairs of a sum and a count of elements, to which a number can be added
/// element by element: the sum grows by the number times the count. All
/// with wrap-around.
#[derive(Clone, Copy)]
pub struct RangeAddSum;

impl Magma for RangeAddSum {
    type T = (i32, i32);

    open spec fn op_spec(&self, lhs: (i32, i32), rhs: (i32, i32)) -> (i32, i32) {
        (wrapping_add(lhs.0, rhs.0), wrapping_add(lhs.1, rhs.1))
    }

    fn op(&self, lhs: &(i32, i32), rhs: &(i32, i32)) -> (r: (i32, i32)) {
        (lhs.0.wrapping_add(rhs.0), lhs.1.wrapping_add(rhs.1))
    }
}

impl Identity for RangeAddSum {
    open spec fn e_spec(&self) -> (i32, i32) {
        (0, 0)
    }

    fn e(&self) -> (r: (i32, i32)) {
        (0, 0)
    }

    proof fn identity(&self, a: (i32, i32)) {
    }
}

impl Associativity for RangeAddSum {
    proof fn associative(&self, a: (i32, i32), b: (i32, i32), c: (i32, i32)) {
    }
}

impl Commutativity for RangeAddSum {
    proof fn commutative(&self, a: (i32, i32), b: (i32, i32)) {
    }
}

impl LazyMonoid for RangeAddSum {
    type F = i32;

    open spec fn id_spec(&self) -> i32 {
        0
    }

    open spec fn comp_spec(&self, g: i32, f: i32) -> i32 {
        wrapping_add(g, f)
    }

    open spec fn map_spec(&self, f: i32, x: (i32, i32)) -> (i32, i32) {
        (wrapping_add(x.0, wrapping_mul(f, x.1)), x.1)
    }

    fn id(&self) -> (r: i32) {
        0
    }

    fn comp(&self, g: &i32, f: &i32) -> (r: i32) {
        g.wrapping_add(*f)
    }

    fn map(&self, f: &i32, x: &(i32, i32)) -> (r: (i32, i32)) {
        (x.0.wrapping_add(f.wrapping_mul(x.1)), x.1)
    }

    proof fn map_id(&self, x: (i32, i32)) {
        assert(0 * x.1 == 0);
        lemma_crop_id(0);
    }

    proof fn map_comp(&self, g: i32, f: i32, x: (i32, i32)) {
        let s = x.0 as int;
        let c = x.1 as int;
        // s + (g + f) c
        lemma_add_is_crop(g, f);
        lemma_crop_mul_one(g + f, c);
        lemma_add_is_crop(x.0, wrapping_mul(wrapping_add(g, f), x.1));
        lemma_crop_add(s, (g + f) * c);
        // (s + f c) + g c
        lemma_add_is_crop(x.0, wrapping_mul(f, x.1));
        lemma_crop_add(s, f * c);
        lemma_add_is_crop(wrapping_add(x.0, wrapping_mul(f, x.1)), wrapping_mul(g, x.1));
        lemma_crop_add(s + f * c, g * c);
        lemma_crop_add(s + signed_crop(f * c), g * c);
        lemma_crop_add(signed_crop(s + signed_crop(f * c)) as int, g * c);
        assert(s + (g + f) * c == s + f * c + g * c) by (nonlinear_arith);
    }

    proof fn map_op(&self, f: i32, x: (i32, i32), y: (i32, i32)) {
        let s = x.0 as int;
        let c = x.1 as int;
        let t = y.0 as int;
        let d = y.1 as int;
        // (s + t) + f (c + d)
        lemma_add_is_crop(x.0, y.0);
        lemma_add_is_crop(x.1, y.1);
        lemma_crop_mul_one(f as int, c + d);
        lemma_add_is_crop(wrapping_add(x.0, y.0), wrapping_mul(f, wrapping_add(x.1, y.1)));
        lemma_crop_add(s + t, f * (c + d));
        lemma_crop_add(s + t, signed_crop(f * (c + d)) as int);
        // (s + f c) + (t + f d)
        lemma_add_is_crop(x.0, wrapping_mul(f, x.1));
        lemma_add_is_crop(y.0, wrapping_mul(f, y.1));
        lemma_crop_add(s, f * c);
        lemma_crop_add(t, f * d);
        lemma_add_is_crop(
            wrapping_add(x.0, wrapping_mul(f, x.1)),
            wrapping_add(y.0, wrapping_mul(f, y.1)),
        );
        lemma_crop_add(s + f * c, t + f * d);
        lemma_crop_add(s + f * c, signed_crop(t + f * d) as int);
        assert(s + t + f * (c + d) == s + f * c + (t + f * d)) by (nonlinear_arith);
    }
}

} // verus!
