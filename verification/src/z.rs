//! The Z array of a sequence: for each position, how far the sequence that
//! starts there agrees with the whole.

use vstd::prelude::*;
use vstd::std_specs::cmp::PartialEqSpec;

verus! {

/// Whether the `k` elements of `s` from `i` on are its first `k` elements.
pub open spec fn agrees<T>(s: Seq<T>, i: int, k: int) -> bool {
    &&& 0 <= k
    &&& i + k <= s.len()
    &&& forall|j: int| 0 <= j < k ==> s[j] == #[trigger] s[i + j]
}

/// Whether `k` is the length of the longest prefix of `s` that also starts at `i`.
pub open spec fn longest_at<T>(s: Seq<T>, i: int, k: int) -> bool {
    &&& agrees(s, i, k)
    &&& (i + k == s.len() || s[k] != s[i + k])
}

/// There is one such length only.
pub proof fn lemma_longest_unique<T>(s: Seq<T>, i: int, a: int, b: int)
    requires
        0 <= i,
        longest_at(s, i, a),
        longest_at(s, i, b),
    ensures
        a == b,
{
    if a < b {
        assert(s[a] == s[i + a]);
    } else if b < a {
        assert(s[b] == s[i + b]);
    }
}

/// The Z array of `slice`: entry 0 is the length of `slice`, and entry `i`
/// is the length of the longest prefix of `slice` that also starts at `i`.
/// Of an empty slice it is the one entry 0.
pub fn z<T: PartialEq>(slice: &[T]) -> (r: Vec<usize>)
    requires
        T::obeys_eq_spec(),
        forall|a: T, b: T| #[trigger] a.eq_spec(&b) <==> (a == b),
    ensures
        r@.len() == if slice@.len() == 0 {
            1
        } else {
            slice@.len()
        },
        r@[0] == slice@.len(),
        forall|i: int| 1 <= i < slice@.len() ==> longest_at(slice@, i, #[trigger] r@[i] as int),
{
    let n = slice.len();
    let ghost s = slice@;
    let mut z: Vec<usize> = Vec::with_capacity(n);
    z.push(n);
    let mut l: usize = 1;
    let mut r: usize = 1;
    let mut i: usize = 1;
    while i < n
        invariant
            s == slice@,
            n == s.len(),
            T::obeys_eq_spec(),
            forall|a: T, b: T| #[trigger] a.eq_spec(&b) <==> (a == b),
            1 <= i,
            n >= 1 ==> i <= n,
            n == 0 ==> i == 1,
            z@.len() == i,
            z@[0] == n,
            1 <= l <= r,
            l <= i,
            n >= 1 ==> r <= n,
            l < i || r == l,
            n >= 1 ==> agrees(s, l as int, r - l),
            forall|j: int| 1 <= j < i ==> longest_at(s, j, #[trigger] z@[j] as int),
        decreases n - i,
    {
        if l < i && i < r && z[i - l] < r - i {
            let k = z[i - l];
            proof {
                assert(longest_at(s, i - l, k as int));
                assert forall|j: int| 0 <= j < k implies s[j] == #[trigger] s[i + j] by {
                    assert(s[j] == s[(i - l) + j]);
                    assert(s[(i - l) + j] == s[l + ((i - l) + j)]);
                }
                assert(s[(i - l) + k] == s[l + ((i - l) + k)]);
            }
            z.push(k);
            i += 1;
            continue ;
        }
        let ghost known: int = if r > i {
            r - i
        } else {
            0
        };
        proof {
            if r > i {
                assert(l < i);
                assert(longest_at(s, i - l, z@[i - l] as int));
                assert forall|j: int| 0 <= j < r - i implies s[j] == #[trigger] s[i + j] by {
                    assert(s[j] == s[(i - l) + j]);
                    assert(s[(i - l) + j] == s[l + ((i - l) + j)]);
                }
            }
        }
        if r < i {
            r = i;
        }
        l = i;
        while r < n && slice[r] == slice[r - i]
            invariant
                s == slice@,
                n == s.len(),
                T::obeys_eq_spec(),
                forall|a: T, b: T| #[trigger] a.eq_spec(&b) <==> (a == b),
                1 <= i < n,
                l == i,
                i <= r <= n,
                agrees(s, i as int, r - i),
            decreases n - r,
        {
            proof {
                let at = r as int;
                assert forall|j: int| 0 <= j < at + 1 - i implies s[j] == #[trigger] s[i + j] by {
                    if j < at - i {
                    } else {
                        assert(s[at - i] == s[at]);
                    }
                }
            }
            r += 1;
        }
        z.push(r - l);
        i += 1;
    }
    z
}

} // verus!
