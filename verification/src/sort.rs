//! The heap-based sort itself: build a binary max-heap in place, then pop the
//! maximum into its final slot until the whole sequence is ascending.

use vstd::prelude::*;

use crate::order::callable_on_all;
use crate::order::decided_by;
use crate::order::sorted_under;
use crate::order::strict_order;

verus! {

/// The max-heap shape at one node: within the active region `[0, end)`, the
/// element at `i` is not less than either of its children `2i + 1` and
/// `2i + 2`, as far as those lie inside the region.
pub open spec fn heap_at<T>(s: Seq<T>, lt: spec_fn(T, T) -> bool, i: int, end: int) -> bool {
    &&& (2 * i + 1 < end ==> !lt(s[i], s[2 * i + 1]))
    &&& (2 * i + 2 < end ==> !lt(s[i], s[2 * i + 2]))
}

/// The most sift-down steps possible from `node` within the region
/// `[0, end)`: the length of the chain of first children from `node` to a
/// leaf. This is the height of the subtree rooted at `node`, logarithmic in
/// the region's length (see `lemma_depth_below_pow2`).
pub open spec fn depth_below(node: int, end: int) -> int
    decreases end - node,
{
    if node < 0 || 2 * node + 1 >= end {
        0
    } else {
        1 + depth_below(2 * node + 1, end)
    }
}

/// The depth is never negative.
pub proof fn lemma_depth_below_nonneg(node: int, end: int)
    ensures
        depth_below(node, end) >= 0,
    decreases end - node,
{
    if !(node < 0 || 2 * node + 1 >= end) {
        lemma_depth_below_nonneg(2 * node + 1, end);
    }
}

/// A node farther from the root is no deeper above the leaves.
pub proof fn lemma_depth_below_node_monotone(a: int, b: int, end: int)
    requires
        0 <= a <= b,
    ensures
        depth_below(b, end) <= depth_below(a, end),
    decreases end - a,
{
    if 2 * a + 1 >= end {
        assert(2 * b + 1 >= end);
    } else if 2 * b + 1 >= end {
        lemma_depth_below_nonneg(2 * a + 1, end);
    } else {
        lemma_depth_below_node_monotone(2 * a + 1, 2 * b + 1, end);
    }
}

/// A shorter region is no deeper.
pub proof fn lemma_depth_below_end_monotone(node: int, end1: int, end2: int)
    requires
        end1 <= end2,
    ensures
        depth_below(node, end1) <= depth_below(node, end2),
    decreases end2 - node,
{
    if node < 0 || 2 * node + 1 >= end1 {
        lemma_depth_below_nonneg(node, end2);
    } else {
        lemma_depth_below_end_monotone(2 * node + 1, end1, end2);
    }
}

/// The depth is logarithmic: two raised to the depth of `node` stays within
/// the region's length, counted from the node's one-based position.
pub proof fn lemma_depth_below_pow2(node: int, end: int)
    requires
        0 <= node < end,
    ensures
        vstd::arithmetic::power2::pow2(depth_below(node, end) as nat) * (node + 1) <= end,
    decreases end - node,
{
    broadcast use vstd::arithmetic::power2::lemma_pow2_unfold;
    broadcast use vstd::arithmetic::power2::lemma_pow2_pos;

    let d = depth_below(node, end);
    if 2 * node + 1 >= end {
        assert(vstd::arithmetic::power2::pow2(0) == 1) by {
            vstd::arithmetic::power2::lemma2_to64();
        }
    } else {
        lemma_depth_below_pow2(2 * node + 1, end);
        let d1 = depth_below(2 * node + 1, end);
        lemma_depth_below_nonneg(2 * node + 1, end);
        assert(d == d1 + 1);
        let p1 = vstd::arithmetic::power2::pow2(d1 as nat) as int;
        vstd::arithmetic::power2::lemma_pow2_unfold(d as nat);
        assert(vstd::arithmetic::power2::pow2(d as nat) == 2 * p1);
        assert(p1 * (2 * node + 2) <= end) by {
            assert(p1 * (2 * node + 1 + 1) <= end);
        }
        assert((2 * p1) * (node + 1) == p1 * (2 * node + 2)) by (nonlinear_arith);
    }
}

/// Exchanging two elements of a sequence leaves its multiset of elements
/// unchanged.
pub proof fn lemma_swap_preserves_multiset<T>(s: Seq<T>, a: int, b: int)
    requires
        0 <= a < b < s.len(),
    ensures
        s.update(a, s[b]).update(b, s[a]).to_multiset() == s.to_multiset(),
{
    broadcast use vstd::seq_lib::group_to_multiset_ensures;
    broadcast use vstd::multiset::group_multiset_axioms;

    let s1 = s.update(a, s[b]);
    let t = s1.update(b, s[a]);
    assert(s1 =~= s.remove(a).insert(a, s[b]));
    assert(t =~= s1.remove(b).insert(b, s[a]));
    assert(s.contains(s[a]));
    assert(s1[b] == s[b]);
    assert(s1.contains(s[b]));
    assert(s1.to_multiset() =~= s.to_multiset().remove(s[a]).insert(s[b]));
    assert(t.to_multiset() =~= s1.to_multiset().remove(s[b]).insert(s[a]));
    assert(t.to_multiset() =~= s.to_multiset());
}

/// Exchanging two elements inside the window `[lo, end)` leaves the multiset
/// of that window unchanged.
pub proof fn lemma_swap_within<T>(s: Seq<T>, a: int, b: int, lo: int, end: int)
    requires
        0 <= lo <= a < b < end <= s.len(),
    ensures
        s.update(a, s[b]).update(b, s[a]).subrange(lo, end).to_multiset() == s.subrange(
            lo,
            end,
        ).to_multiset(),
{
    let u = s.subrange(lo, end);
    let t = s.update(a, s[b]).update(b, s[a]);
    assert(t.subrange(lo, end) =~= u.update(a - lo, u[b - lo]).update(b - lo, u[a - lo]));
    lemma_swap_preserves_multiset(u, a - lo, b - lo);
}

/// A sequence changed only inside the window `[lo, end)`, in a way that keeps
/// the window's multiset, keeps the multiset of the whole sequence.
pub proof fn lemma_splice_multiset<T>(pre: Seq<T>, post: Seq<T>, lo: int, end: int)
    requires
        pre.len() == post.len(),
        0 <= lo <= end <= pre.len(),
        forall|i: int| 0 <= i < pre.len() && !(lo <= i < end) ==> post[i] == pre[i],
        post.subrange(lo, end).to_multiset() == pre.subrange(lo, end).to_multiset(),
    ensures
        post.to_multiset() == pre.to_multiset(),
{
    let n = pre.len() as int;
    assert(pre =~= pre.subrange(0, lo) + pre.subrange(lo, end) + pre.subrange(end, n));
    assert(post =~= post.subrange(0, lo) + post.subrange(lo, end) + post.subrange(end, n));
    assert(post.subrange(0, lo) =~= pre.subrange(0, lo));
    assert(post.subrange(end, n) =~= pre.subrange(end, n));
    vstd::seq_lib::lemma_multiset_commutative(
        pre.subrange(0, lo) + pre.subrange(lo, end),
        pre.subrange(end, n),
    );
    vstd::seq_lib::lemma_multiset_commutative(pre.subrange(0, lo), pre.subrange(lo, end));
    vstd::seq_lib::lemma_multiset_commutative(
        post.subrange(0, lo) + post.subrange(lo, end),
        post.subrange(end, n),
    );
    vstd::seq_lib::lemma_multiset_commutative(post.subrange(0, lo), post.subrange(lo, end));
    assert(post.to_multiset() =~= pre.to_multiset());
}

/// In a max-heap over `[0, end)` the root is not less than any element of the
/// region: following parent links from any index reaches the root, and the
/// parent-not-less-than-child steps compose by transitivity.
pub proof fn lemma_heap_root_max<T>(s: Seq<T>, lt: spec_fn(T, T) -> bool, end: int, k: int)
    requires
        strict_order(lt),
        forall|i: int| 0 <= i < end ==> heap_at(s, lt, i, end),
        0 <= k < end <= s.len(),
    ensures
        !lt(s[0], s[k]),
    decreases k,
{
    if k > 0 {
        let p = (k - 1) / 2;
        assert(0 <= p < k);
        assert(2 * p + 1 == k || 2 * p + 2 == k);
        assert(heap_at(s, lt, p, end));
        assert(!lt(s[p], s[k]));
        lemma_heap_root_max(s, lt, end, p);
        assert(!lt(s[0], s[k]));
    } else {
        assert(!lt(s[0], s[0]));
    }
}

/// Exchanges the elements at positions `a` and `b`, `a` strictly below `b`,
/// moving them in place: no element is copied, created or dropped.
fn exchange<T>(v: &mut Vec<T>, a: usize, b: usize)
    requires
        a < b < old(v)@.len(),
    ensures
        final(v)@ == old(v)@.update(a as int, old(v)@[b as int]).update(b as int, old(v)@[a as int]),
{
    let ghost orig = old(v)@;
    let whole = v.as_mut_slice();
    let (front, back) = whole.split_at_mut(b);
    let (_, tail) = front.split_at_mut(a);
    let xo = tail.first_mut();
    let yo = back.first_mut();
    if let (Option::Some(x), Option::Some(y)) = (xo, yo) {
        core::mem::swap(x, y);
    }
    proof {
        assert(v@ =~= orig.update(a as int, orig[b as int]).update(b as int, orig[a as int]));
    }
}

/// Restores the max-heap shape at `node` over the active region `[0, end)`,
/// assuming both subtrees below `node` already have it: the element at `node`
/// is swapped downward past its greater child, right child preferred on
/// equality, until it is not less than either child or reaches a leaf.
///
/// On return the whole range `[node, end)` has the heap shape; the region
/// `[node, end)` holds the same elements rearranged, and nothing outside it
/// moves. The count of comparator invocations is returned as a ghost value:
/// it is at most twice the height of the subtree at `node`.
#[verifier::loop_isolation(false)]
pub fn sift_down<T, F: Fn(&T, &T) -> bool>(
    v: &mut Vec<T>,
    node: usize,
    end: usize,
    is_less: &F,
    Ghost(lt): Ghost<spec_fn(T, T) -> bool>,
) -> (cmps: Ghost<int>)
    requires
        callable_on_all::<T, &F>(is_less),
        decided_by::<T, &F>(is_less, lt),
        strict_order(lt),
        end <= old(v)@.len(),
        node < end,
        forall|i: int| node < i < end ==> heap_at(old(v)@, lt, i, end as int),
    ensures
        0 <= cmps@ <= 2 * depth_below(node as int, end as int),
        final(v)@.len() == old(v)@.len(),
        forall|i: int| 0 <= i < old(v)@.len() && !(node <= i < end) ==> final(v)@[i] == old(v)@[i],
        final(v)@.subrange(node as int, end as int).to_multiset() == old(v)@.subrange(
            node as int,
            end as int,
        ).to_multiset(),
        forall|i: int| node <= i < end ==> heap_at(final(v)@, lt, i, end as int),
{
    let ghost orig = v@;
    let ghost hole0 = node as int;
    let ghost mut c: int = 0;
    let mut cur = node;
    while cur < end / 2
        invariant
            0 <= c,
            c + 2 * depth_below(cur as int, end as int) <= 2 * depth_below(hole0, end as int),
            v@.len() == orig.len(),
            hole0 <= cur < end,
            forall|i: int| 0 <= i < orig.len() && !(hole0 <= i < end) ==> v@[i] == orig[i],
            v@.subrange(hole0, end as int).to_multiset() == orig.subrange(
                hole0,
                end as int,
            ).to_multiset(),
            forall|i: int| hole0 <= i < end && i != cur ==> heap_at(v@, lt, i, end as int),
            cur > hole0 ==> {
                let p = (cur - 1) as int / 2;
                &&& (2 * cur + 1 < end ==> !lt(v@[p], v@[2 * cur as int + 1]))
                &&& (2 * cur + 2 < end ==> !lt(v@[p], v@[2 * cur as int + 2]))
            },
        decreases end - cur,
    {
        let mut child = 2 * cur + 1;
        proof {
            lemma_depth_below_nonneg(2 * cur as int + 1, end as int);
            assert(depth_below(cur as int, end as int) >= 1);
        }
        if child + 1 < end {
            let right_greater = is_less(&v[child], &v[child + 1]);
            proof {
                c = c + 1;
            }
            if right_greater {
                child = child + 1;
            }
        }
        let must_descend = is_less(&v[cur], &v[child]);
        proof {
            c = c + 1;
        }
        if !must_descend {
            proof {
                assert(heap_at(v@, lt, cur as int, end as int));
            }
            return Ghost(c);
        }
        let ghost pre = v@;
        exchange(v, cur, child);
        proof {
            lemma_swap_within(pre, cur as int, child as int, hole0, end as int);
            let cu = cur as int;
            let ch = child as int;
            assert(v@[cu] == pre[ch] && v@[ch] == pre[cu]);
            assert(forall|i: int| 0 <= i < pre.len() && i != cu && i != ch ==> v@[i] == pre[i]);
            // the moved-up element dominates both of its new children
            assert(heap_at(v@, lt, cu, end as int));
            // the old parent of `cur` still dominates the element moved up
            if cur > hole0 && (cu - 1) / 2 >= hole0 {
                let p = (cu - 1) / 2;
                assert(2 * p + 1 == cu || 2 * p + 2 == cu);
                assert(p < cu < ch);
                assert(heap_at(pre, lt, p, end as int));
                assert(heap_at(v@, lt, p, end as int));
            }
            assert forall|i: int| hole0 <= i < end && i != ch implies heap_at(
                v@,
                lt,
                i,
                end as int,
            ) by {
                if i != cu && !(2 * i + 1 == cu || 2 * i + 2 == cu) {
                    assert(2 * i + 1 != ch && 2 * i + 2 != ch);
                    assert(heap_at(pre, lt, i, end as int));
                } else if 2 * i + 1 == cu || 2 * i + 2 == cu {
                    assert(i == (cu - 1) / 2);
                }
            }
            // the element sent down is still dominated by its new parent
            assert((ch - 1) / 2 == cu);
            assert(heap_at(pre, lt, ch, end as int));
            assert(2 * ch + 1 < end ==> v@[2 * ch + 1] == pre[2 * ch + 1]);
            assert(2 * ch + 2 < end ==> v@[2 * ch + 2] == pre[2 * ch + 2]);
            assert(2 * ch + 1 < end ==> !lt(v@[cu], v@[2 * ch + 1]));
            assert(2 * ch + 2 < end ==> !lt(v@[cu], v@[2 * ch + 2]));
        }
        proof {
            lemma_depth_below_node_monotone(2 * cur as int + 1, child as int, end as int);
        }
        cur = child;
    }
    proof {
        assert(2 * (end as int / 2) <= end as int <= 2 * (end as int / 2) + 1);
        assert(heap_at(v@, lt, cur as int, end as int));
        lemma_depth_below_nonneg(cur as int, end as int);
    }
    Ghost(c)
}

/// Sorts the sequence in place into ascending order under `is_less`, the
/// comparator that decides the order `lt`, with a guaranteed `O(n log n)`
/// worst case: a binary max-heap is first built bottom-up in linear time,
/// then the maximum is repeatedly swapped to the end of a shrinking active
/// region and the heap shape restored at the root.
///
/// The result holds exactly the input's elements, rearranged so that no later
/// element is less than an earlier one. Sequences shorter than two elements
/// are already in order and are left untouched, so no caller-side length
/// check is needed.
///
/// The count of comparator invocations is returned as a ghost value and is at
/// most `3 * n * depth_below(0, n)`, where the depth is logarithmic in `n`
/// (`lemma_depth_below_pow2`): the count is `O(n log n)` on every input.
#[verifier::loop_isolation(false)]
pub fn heapsort_by<T, F: Fn(&T, &T) -> bool>(
    v: &mut Vec<T>,
    is_less: &F,
    Ghost(lt): Ghost<spec_fn(T, T) -> bool>,
) -> (cmps: Ghost<int>)
    requires
        callable_on_all::<T, &F>(is_less),
        decided_by::<T, &F>(is_less, lt),
        strict_order(lt),
    ensures
        final(v)@.len() == old(v)@.len(),
        final(v)@.to_multiset() == old(v)@.to_multiset(),
        sorted_under(lt, final(v)@),
        0 <= cmps@ <= 3 * old(v)@.len() * depth_below(0, old(v)@.len() as int),
{
    broadcast use vstd::seq_lib::group_to_multiset_ensures;

    let len = v.len();
    if len < 2 {
        proof {
            lemma_depth_below_nonneg(0, len as int);
            vstd::arithmetic::mul::lemma_mul_nonnegative(
                3 * len as int,
                depth_below(0, len as int),
            );
        }
        return Ghost(0);
    }
    let ghost dd = depth_below(0, len as int);
    let ghost mut c: int = 0;
    proof {
        lemma_depth_below_nonneg(0, len as int);
    }
    // Build the heap bottom-up: nodes at and above `len / 2` are leaves.
    let mut i = len / 2;
    while i > 0
        invariant
            i <= len / 2,
            0 <= c <= 2 * (len as int / 2 - i as int) * dd,
            v@.len() == len,
            v@.to_multiset() == old(v)@.to_multiset(),
            forall|j: int| i <= j < len ==> heap_at(v@, lt, j, len as int),
        decreases i,
    {
        i = i - 1;
        let ghost pre = v@;
        let step = sift_down(v, i, len, is_less, Ghost(lt));
        proof {
            lemma_splice_multiset(pre, v@, i as int, len as int);
            lemma_depth_below_node_monotone(0, i as int, len as int);
            let q = len as int / 2 - i as int - 1;
            assert(c <= 2 * q * dd);
            assert(2 * (q + 1) * dd == 2 * q * dd + 2 * dd) by (nonlinear_arith);
            c = c + step@;
        }
    }
    // Pop maximal elements from the heap into the sorted suffix.
    let mut k = len;
    while k > 1
        invariant
            1 <= k <= len,
            0 <= c <= 2 * (len as int / 2) * dd + 2 * (len as int - k as int) * dd,
            v@.len() == len,
            v@.to_multiset() == old(v)@.to_multiset(),
            forall|j: int| 0 <= j < k ==> heap_at(v@, lt, j, k as int),
            forall|a: int, b: int| k <= a <= b < len ==> !(#[trigger] lt(v@[b], v@[a])),
            forall|a: int, b: int| 0 <= a < k <= b < len ==> !(#[trigger] lt(v@[b], v@[a])),
        decreases k,
    {
        k = k - 1;
        let ghost pre = v@;
        proof {
            assert forall|j: int| 0 <= j < k as int + 1 implies !(#[trigger] lt(pre[0], pre[j])) by {
                lemma_heap_root_max(pre, lt, k as int + 1, j);
            }
        }
        exchange(v, 0, k);
        let ghost mid = v@;
        proof {
            lemma_swap_preserves_multiset(pre, 0, k as int);
            assert(mid[k as int] == pre[0] && mid[0] == pre[k as int]);
            assert(forall|j: int| 0 < j < k ==> mid[j] == pre[j]);
            // the shrunk region is a heap everywhere but at the root
            assert forall|j: int| 0 < j < k implies heap_at(mid, lt, j, k as int) by {
                assert(heap_at(pre, lt, j, k as int + 1));
            }
            // the extracted maximum closes the gap between region and suffix
            assert forall|a: int, b: int| 0 <= a < k <= b < len implies !(#[trigger] lt(mid[b], mid[a])) by {
                if b == k as int {
                    if a == 0 {
                        assert(!lt(pre[0], pre[k as int]));
                    } else {
                        assert(!lt(pre[0], pre[a]));
                    }
                } else {
                    if a == 0 {
                        assert(!lt(pre[b], pre[k as int]));
                    } else {
                        assert(!lt(pre[b], pre[a]));
                    }
                }
            }
            // the suffix, now one longer, stays sorted
            assert forall|a: int, b: int| k <= a <= b < len implies !(#[trigger] lt(mid[b], mid[a])) by {
                if a == k as int {
                    if b == k as int {
                        assert(!lt(mid[b], mid[b]));
                    } else {
                        assert(!lt(pre[b], pre[0]));
                    }
                }
            }
        }
        let step = sift_down(v, 0, k, is_less, Ghost(lt));
        proof {
            lemma_depth_below_end_monotone(0, k as int, len as int);
            let q = len as int - k as int - 1;
            assert(c <= 2 * (len as int / 2) * dd + 2 * q * dd);
            assert(2 * (q + 1) * dd == 2 * q * dd + 2 * dd) by (nonlinear_arith);
            c = c + step@;
            lemma_splice_multiset(mid, v@, 0, k as int);
            // the region was only rearranged, so it stays below the suffix
            assert forall|a: int, b: int| 0 <= a < k <= b < len implies !(#[trigger] lt(v@[b], v@[a])) by {
                let spost = v@.subrange(0, k as int);
                let spre = mid.subrange(0, k as int);
                assert(spost[a] == v@[a]);
                assert(spost.contains(v@[a]));
                assert(spre.to_multiset().count(v@[a]) > 0);
                assert(spre.contains(v@[a]));
                let j = choose|j: int| 0 <= j < spre.len() && spre[j] == v@[a];
                assert(mid[j] == v@[a]);
                assert(v@[b] == mid[b]);
                assert(!lt(mid[b], mid[j]));
            }
        }
    }
    proof {
        assert forall|a: int, b: int| 0 <= a <= b < v@.len() implies !(#[trigger] lt(v@[b], v@[a])) by {
            if a == b {
                assert(!lt(v@[a], v@[a]));
            }
        }
        vstd::arithmetic::mul::lemma_mul_inequality(2 * (len as int / 2), len as int, dd);
        vstd::arithmetic::mul::lemma_mul_inequality(
            2 * (len as int - 1),
            2 * len as int,
            dd,
        );
        assert(2 * (len as int) * dd + (len as int) * dd == 3 * (len as int) * dd)
            by (nonlinear_arith);
    }
    Ghost(c)
}

/// Sorts the sequence in place into ascending order under `is_less`, which
/// must decide some total-order-consistent relation; the heap algorithm and
/// the in-place guarantees are those of `heapsort_by`. The result holds
/// exactly the input's elements, sorted under a relation the comparator
/// decides.
pub fn heapsort<T, F: Fn(&T, &T) -> bool>(v: &mut Vec<T>, is_less: &F) -> (cmps: Ghost<int>)
    requires
        callable_on_all::<T, &F>(is_less),
        exists|lt: spec_fn(T, T) -> bool| strict_order(lt) && #[trigger] decided_by::<T, &F>(
            is_less,
            lt,
        ),
    ensures
        final(v)@.len() == old(v)@.len(),
        final(v)@.to_multiset() == old(v)@.to_multiset(),
        exists|lt: spec_fn(T, T) -> bool|
            strict_order(lt) && #[trigger] decided_by::<T, &F>(is_less, lt) && sorted_under(
                lt,
                final(v)@,
            ),
        0 <= cmps@ <= 3 * old(v)@.len() * depth_below(0, old(v)@.len() as int),
{
    let ghost lt = choose|lt: spec_fn(T, T) -> bool|
        strict_order(lt) && #[trigger] decided_by::<T, &F>(is_less, lt);
    heapsort_by(v, is_less, Ghost(lt))
}

} // verus!
