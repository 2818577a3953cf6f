//! Disjoint sets over `0..n`, merged by union and told apart by find.

use vstd::prelude::*;

verus! {

/// Each entry is either negative, at a root, or the index of a smaller element.
pub open spec fn links_ok(p: Seq<isize>) -> bool {
    &&& p.len() <= isize::MAX
    &&& forall|i: int| 0 <= i < p.len() ==> #[trigger] p[i] < i
}

/// The root that the links lead to from `i`.
pub open spec fn root_in(p: Seq<isize>, i: int) -> int
    decreases i,
{
    if 0 <= i < p.len() && 0 <= p[i] < i {
        root_in(p, p[i] as int)
    } else {
        i
    }
}

/// How many of the first `k` elements have the root `r`.
pub open spec fn members_in(p: Seq<isize>, k: int, r: int) -> nat
    decreases k,
{
    if k <= 0 {
        0
    } else {
        members_in(p, k - 1, r) + if root_in(p, k - 1) == r {
            1nat
        } else {
            0nat
        }
    }
}

/// How many of the first `k` elements are roots.
pub open spec fn roots_in(p: Seq<isize>, k: int) -> nat
    decreases k,
{
    if k <= 0 {
        0
    } else {
        roots_in(p, k - 1) + if p[k - 1] < 0 {
            1nat
        } else {
            0nat
        }
    }
}

/// Every root keeps, negated, the number of elements that lead to it.
pub open spec fn sizes_ok(p: Seq<isize>) -> bool {
    forall|r: int| 0 <= r < p.len() && #[trigger] p[r] < 0
        ==> -p[r] == members_in(p, p.len() as int, r)
}

proof fn lemma_root(p: Seq<isize>, i: int)
    requires
        links_ok(p),
        0 <= i < p.len(),
    ensures
        0 <= root_in(p, i) <= i,
        p[root_in(p, i)] < 0,
        root_in(p, root_in(p, i)) == root_in(p, i),
    decreases i,
{
    if 0 <= p[i] < i {
        lemma_root(p, p[i] as int);
    }
}

proof fn lemma_members_bound(p: Seq<isize>, k: int, r: int)
    requires
        0 <= k,
    ensures
        members_in(p, k, r) <= k,
    decreases k,
{
    if k > 0 {
        lemma_members_bound(p, k - 1, r);
    }
}

/// Two different roots never have more members together than there are elements.
proof fn lemma_members_two(p: Seq<isize>, k: int, a: int, b: int)
    requires
        0 <= k,
        a != b,
    ensures
        members_in(p, k, a) + members_in(p, k, b) <= k,
    decreases k,
{
    if k > 0 {
        lemma_members_two(p, k - 1, a, b);
    }
}

/// Pointing `a` directly at its root changes no root.
proof fn lemma_compress(p: Seq<isize>, a: int, i: int)
    requires
        links_ok(p),
        0 <= a < p.len(),
        0 <= p[a],
        0 <= i < p.len(),
    ensures
        root_in(p.update(a, root_in(p, a) as isize), i) == root_in(p, i),
    decreases i,
{
    let q = p.update(a, root_in(p, a) as isize);
    lemma_root(p, a);
    if i == a {
        lemma_root(p, root_in(p, a));
        if root_in(p, a) < a {
            lemma_compress(p, a, root_in(p, a));
        }
    } else if 0 <= p[i] < i {
        lemma_compress(p, a, p[i] as int);
    }
}

proof fn lemma_compress_counts(p: Seq<isize>, a: int, k: int, r: int)
    requires
        links_ok(p),
        0 <= a < p.len(),
        0 <= p[a],
        0 <= k <= p.len(),
    ensures
        members_in(p.update(a, root_in(p, a) as isize), k, r) == members_in(p, k, r),
        roots_in(p.update(a, root_in(p, a) as isize), k) == roots_in(p, k),
    decreases k,
{
    if k > 0 {
        lemma_compress_counts(p, a, k - 1, r);
        lemma_compress(p, a, k - 1);
        lemma_root(p, a);
    }
}

/// The links after the root `hi` was hung below the root `lo`.
pub open spec fn linked(p: Seq<isize>, lo: int, hi: int) -> Seq<isize> {
    p.update(lo, (p[lo] + p[hi]) as isize).update(hi, lo as isize)
}

proof fn lemma_link(p: Seq<isize>, lo: int, hi: int, i: int)
    requires
        links_ok(p),
        0 <= lo < hi < p.len(),
        p[lo] < 0,
        p[hi] < 0,
        p[lo] + p[hi] >= isize::MIN,
        0 <= i < p.len(),
    ensures
        root_in(linked(p, lo, hi), i) == if root_in(p, i) == hi {
            lo
        } else {
            root_in(p, i)
        },
    decreases i,
{
    let q = linked(p, lo, hi);
    if i == hi {
        lemma_link(p, lo, hi, lo);
        assert(q[hi] == lo);
    } else if i == lo {
        assert(q[lo] < 0);
    } else if 0 <= p[i] < i {
        assert(q[i] == p[i]);
        lemma_link(p, lo, hi, p[i] as int);
    } else {
        assert(q[i] == p[i]);
    }
}

proof fn lemma_link_counts(p: Seq<isize>, lo: int, hi: int, k: int, r: int)
    requires
        links_ok(p),
        0 <= lo < hi < p.len(),
        p[lo] < 0,
        p[hi] < 0,
        p[lo] + p[hi] >= isize::MIN,
        0 <= k <= p.len(),
    ensures
        members_in(linked(p, lo, hi), k, r) == if r == lo {
            members_in(p, k, lo) + members_in(p, k, hi)
        } else if r == hi {
            0
        } else {
            members_in(p, k, r)
        },
        roots_in(linked(p, lo, hi), k) == roots_in(p, k) - if hi < k {
            1int
        } else {
            0int
        },
    decreases k,
{
    if k > 0 {
        lemma_link_counts(p, lo, hi, k - 1, r);
        lemma_link(p, lo, hi, k - 1);
    }
}

proof fn lemma_fresh(p: Seq<isize>, k: int, r: int)
    requires
        0 <= k <= p.len(),
        forall|i: int| 0 <= i < p.len() ==> #[trigger] p[i] == -1,
    ensures
        members_in(p, k, r) == if 0 <= r < k {
            1nat
        } else {
            0nat
        },
        roots_in(p, k) == k,
    decreases k,
{
    if k > 0 {
        lemma_fresh(p, k - 1, r);
    }
}

/// Disjoint sets over the elements `0..len()`. The root of a set is its
/// least element.
#[derive(Clone)]
pub struct UnionFind(Vec<isize>, usize);

impl Default for UnionFind {
    /// No elements.
    fn default() -> (r: Self)
        ensures
            r.wf(),
            r.spec_len() == 0,
            r.sets() == 0,
    {
        UnionFind(Vec::new(), 0)
    }
}

impl UnionFind {
    /// The links are sound, the kept sizes are those of the sets, and the
    /// kept count is the number of sets.
    pub closed spec fn wf(&self) -> bool {
        &&& links_ok(self.0@)
        &&& sizes_ok(self.0@)
        &&& self.1 == roots_in(self.0@, self.0@.len() as int)
    }

    /// Number of elements.
    pub closed spec fn spec_len(&self) -> nat {
        self.0@.len()
    }

    /// The root of the set that holds `i`.
    pub closed spec fn root_of(&self, i: int) -> int {
        root_in(self.0@, i)
    }

    /// Number of elements whose root is `r`.
    pub closed spec fn members(&self, r: int) -> nat {
        members_in(self.0@, self.0@.len() as int, r)
    }

    /// Number of sets.
    pub closed spec fn sets(&self) -> nat {
        roots_in(self.0@, self.0@.len() as int)
    }

    /// The root of a set is an element of it, not behind any of its
    /// elements, and its own root.
    pub proof fn lemma_root_of(&self, i: int)
        requires
            self.wf(),
            0 <= i < self.spec_len(),
        ensures
            0 <= self.root_of(i) <= i,
            self.root_of(self.root_of(i)) == self.root_of(i),
            self.members(self.root_of(i)) >= 1,
    {
        lemma_root(self.0@, i);
    }

    /// `n` sets of one element each.
    pub fn new(n: usize) -> (r: Self)
        requires
            n <= isize::MAX,
        ensures
            r.wf(),
            r.spec_len() == n,
            r.sets() == n,
            forall|i: int| 0 <= i < n ==> r.root_of(i) == i,
            forall|i: int| 0 <= i < n ==> r.members(i) == 1,
    {
        let mut v: Vec<isize> = Vec::new();
        let mut i: usize = 0;
        while i < n
            invariant
                i <= n,
                v@.len() == i,
                forall|j: int| 0 <= j < i ==> #[trigger] v@[j] == -1,
            decreases n - i,
        {
            v.push(-1);
            i += 1;
        }
        proof {
            assert forall|r: int| true implies members_in(v@, n as int, r) == if 0 <= r < n {
                1nat
            } else {
                0nat
            } by {
                lemma_fresh(v@, n as int, r);
            }
            lemma_fresh(v@, n as int, 0);
        }
        UnionFind(v, n)
    }

    /// Number of elements.
    pub fn len(&self) -> (r: usize)
        ensures
            r == self.spec_len(),
    {
        self.0.len()
    }

    /// Number of sets.
    pub fn count(&self) -> (r: usize)
        requires
            self.wf(),
        ensures
            r == self.sets(),
    {
        self.1
    }

    /// Makes one set of the sets of `a` and `b`, and returns its root: the
    /// lesser of the two roots.
    pub fn union(&mut self, a: usize, b: usize) -> (r: usize)
        requires
            old(self).wf(),
            a < old(self).spec_len(),
            b < old(self).spec_len(),
        ensures
            final(self).wf(),
            final(self).spec_len() == old(self).spec_len(),
            r == old(self).root_of(a as int) || r == old(self).root_of(b as int),
            r <= old(self).root_of(a as int),
            r <= old(self).root_of(b as int),
            forall|i: int|
                0 <= i < old(self).spec_len() ==> #[trigger] final(self).root_of(i) == if old(
                    self,
                ).root_of(i) == old(self).root_of(a as int) || old(self).root_of(i) == old(
                    self,
                ).root_of(b as int) {
                    r as int
                } else {
                    old(self).root_of(i)
                },
            final(self).sets() == old(self).sets() - if old(self).root_of(a as int) == old(
                self,
            ).root_of(b as int) {
                0int
            } else {
                1int
            },
            old(self).root_of(a as int) != old(self).root_of(b as int) ==> final(self).members(
                r as int,
            ) == old(self).members(old(self).root_of(a as int)) + old(self).members(
                old(self).root_of(b as int),
            ),
            forall|i: int|
                i != old(self).root_of(a as int) && i != old(self).root_of(b as int)
                    ==> #[trigger] final(self).members(i) == old(self).members(i),
    {
        let ghost a0 = a;
        let ghost b0 = b;
        let a = self.find(a);
        assert(self.root_of(b0 as int) == old(self).root_of(b0 as int));
        assert(self.root_of(a as int) == old(self).root_of(a as int));
        let ghost mid = *self;
        let b = self.find(b);
        let ghost after = *self;
        assert(self.root_of(a as int) == mid.root_of(a as int));
        assert(self.root_of(b as int) == mid.root_of(b as int));
        proof {
            lemma_root(old(self).0@, a0 as int);
            lemma_root(old(self).0@, b0 as int);
            lemma_root(self.0@, a as int);
            lemma_root(self.0@, b as int);
        }
        if a == b {
            proof {
                assert forall|i: int| #[trigger] self.members(i) == old(self).members(i) by {
                    assert(mid.members(i) == old(self).members(i));
                    assert(after.members(i) == mid.members(i));
                }
            }
            return a;
        }
        let ghost p = self.0@;
        let (lo, hi) = if a < b {
            (a, b)
        } else {
            (b, a)
        };
        proof {
            lemma_members_two(p, p.len() as int, lo as int, hi as int);
            lemma_link_counts(p, lo as int, hi as int, p.len() as int, 0);
            assert forall|i: int| 0 <= i < p.len() implies #[trigger] root_in(
                linked(p, lo as int, hi as int),
                i,
            ) == if root_in(p, i) == hi {
                lo as int
            } else {
                root_in(p, i)
            } by {
                lemma_link(p, lo as int, hi as int, i);
            }
            assert forall|r: int|
                0 <= r < p.len() && #[trigger] linked(p, lo as int, hi as int)[r]
                    < 0 implies -linked(p, lo as int, hi as int)[r] == members_in(
                linked(p, lo as int, hi as int),
                p.len() as int,
                r,
            ) by {
                lemma_link_counts(p, lo as int, hi as int, p.len() as int, r);
            }
        }
        self.1 = self.1 - 1;
        let sum = self.0[lo] + self.0[hi];
        self.0.set(lo, sum);
        self.0.set(hi, lo as isize);
        assert(self.0@ =~= linked(p, lo as int, hi as int));
        proof {
            assert forall|i: int| 0 <= i < p.len() implies #[trigger] self.root_of(i) == if old(
                self,
            ).root_of(i) == old(self).root_of(a0 as int) || old(self).root_of(i) == old(
                self,
            ).root_of(b0 as int) {
                lo as int
            } else {
                old(self).root_of(i)
            } by {
                lemma_link(p, lo as int, hi as int, i);
                assert(mid.root_of(i) == old(self).root_of(i));
                assert(after.root_of(i) == mid.root_of(i));
            }
            assert forall|i: int| i != lo && i != hi implies #[trigger] self.members(i) == old(
                self,
            ).members(i) by {
                lemma_link_counts(p, lo as int, hi as int, p.len() as int, i);
                assert(mid.members(i) == old(self).members(i));
                assert(after.members(i) == mid.members(i));
            }
            lemma_link_counts(p, lo as int, hi as int, p.len() as int, lo as int);
            assert(mid.members(lo as int) == old(self).members(lo as int));
            assert(after.members(lo as int) == mid.members(lo as int));
            assert(mid.members(hi as int) == old(self).members(hi as int));
            assert(after.members(hi as int) == mid.members(hi as int));
        }
        lo
    }

    /// The root of the set of `a`. The elements passed on the way are linked
    /// to the root directly; no set changes.
    pub fn find(&mut self, a: usize) -> (r: usize)
        requires
            old(self).wf(),
            a < old(self).spec_len(),
        ensures
            final(self).wf(),
            final(self).spec_len() == old(self).spec_len(),
            r == old(self).root_of(a as int),
            r <= a,
            final(self).sets() == old(self).sets(),
            forall|i: int|
                0 <= i < old(self).spec_len() ==> #[trigger] final(self).root_of(i) == old(
                    self,
                ).root_of(i),
            forall|i: int| #[trigger] final(self).members(i) == old(self).members(i),
    {
        let root = self.find_imu(a);
        proof {
            lemma_root(self.0@, a as int);
        }
        let ghost p0 = self.0@;
        let mut a = a;
        while a != root
            invariant
                links_ok(self.0@),
                self.0@.len() == p0.len(),
                a < self.0@.len(),
                root == root_in(self.0@, a as int),
                self.1 == old(self).1,
                forall|i: int| 0 <= i < p0.len()
                    ==> #[trigger] root_in(self.0@, i) == root_in(p0, i),
                forall|r: int| #[trigger]
                    members_in(self.0@, p0.len() as int, r) == members_in(p0, p0.len() as int, r),
                roots_in(self.0@, p0.len() as int) == roots_in(p0, p0.len() as int),
                forall|r: int| 0 <= r < p0.len() ==> (#[trigger] self.0@[r] < 0) == (p0[r] < 0),
                forall|r: int| 0 <= r < p0.len() && #[trigger] p0[r] < 0 ==> self.0@[r] == p0[r],
            decreases a,
        {
            let ghost p = self.0@;
            let next = self.0[a];
            proof {
                lemma_root(p, a as int);
                assert forall|i: int| 0 <= i < p.len() implies #[trigger] root_in(
                    p.update(a as int, root as isize),
                    i,
                ) == root_in(p, i) by {
                    lemma_compress(p, a as int, i);
                }
                assert forall|r: int| #[trigger]
                    members_in(p.update(a as int, root as isize), p.len() as int, r) == members_in(
                        p,
                        p.len() as int,
                        r,
                    ) by {
                    lemma_compress_counts(p, a as int, p.len() as int, r);
                }
                lemma_compress_counts(p, a as int, p.len() as int, 0);
            }
            self.0.set(a, root as isize);
            a = next as usize;
        }
        a
    }

    /// The root of the set of `a`.
    pub fn find_imu(&self, a: usize) -> (r: usize)
        requires
            self.wf(),
            a < self.spec_len(),
        ensures
            r == self.root_of(a as int),
            r <= a,
    {
        proof {
            lemma_root(self.0@, a as int);
        }
        let mut at = a;
        while self.0[at] >= 0
            invariant
                links_ok(self.0@),
                at < self.0@.len(),
                root_in(self.0@, at as int) == root_in(self.0@, a as int),
            decreases at,
        {
            at = self.0[at] as usize;
        }
        at
    }

    /// Number of elements in the set of `a`.
    pub fn size(&mut self, a: usize) -> (r: usize)
        requires
            old(self).wf(),
            a < old(self).spec_len(),
        ensures
            final(self).wf(),
            final(self).spec_len() == old(self).spec_len(),
            r == old(self).members(old(self).root_of(a as int)),
            final(self).sets() == old(self).sets(),
            forall|i: int|
                0 <= i < old(self).spec_len() ==> #[trigger] final(self).root_of(i) == old(
                    self,
                ).root_of(i),
            forall|i: int| #[trigger] final(self).members(i) == old(self).members(i),
    {
        let root = self.find(a);
        proof {
            assert(self.root_of(a as int) == root);
            lemma_root(self.0@, a as int);
            lemma_members_bound(self.0@, self.0@.len() as int, root as int);
            assert(self.0@[root as int] < 0);
            assert(self.members(root as int) == old(self).members(root as int));
        }
        let kept: isize = self.0[root];
        (-kept) as usize
    }

    /// Number of elements in the set of `a`.
    pub fn size_imu(&self, a: usize) -> (r: usize)
        requires
            self.wf(),
            a < self.spec_len(),
        ensures
            r == self.members(self.root_of(a as int)),
    {
        let root = self.find_imu(a);
        proof {
            lemma_root(self.0@, a as int);
            lemma_members_bound(self.0@, self.0@.len() as int, root as int);
            assert(self.0@[root as int] < 0);
        }
        let kept: isize = self.0[root];
        (-kept) as usize
    }

    /// Whether `a` and `b` are in one set.
    pub fn same(&mut self, a: usize, b: usize) -> (r: bool)
        requires
            old(self).wf(),
            a < old(self).spec_len(),
            b < old(self).spec_len(),
        ensures
            final(self).wf(),
            final(self).spec_len() == old(self).spec_len(),
            r == (old(self).root_of(a as int) == old(self).root_of(b as int)),
            final(self).sets() == old(self).sets(),
            forall|i: int|
                0 <= i < old(self).spec_len() ==> #[trigger] final(self).root_of(i) == old(
                    self,
                ).root_of(i),
            forall|i: int| #[trigger] final(self).members(i) == old(self).members(i),
    {
        let ra = self.find(a);
        let rb = self.find(b);
        ra == rb
    }

    /// Whether `a` and `b` are in one set.
    pub fn same_imu(&self, a: usize, b: usize) -> (r: bool)
        requires
            self.wf(),
            a < self.spec_len(),
            b < self.spec_len(),
        ensures
            r == (self.root_of(a as int) == self.root_of(b as int)),
    {
        self.find_imu(a) == self.find_imu(b)
    }
}

} // verus!
