//! The cyclic permutation engine: relocates a pre-identified set of misplaced
//! elements along a single cycle, one pair of cursors at a time, so that each
//! "left" position receives the value of its partner "right" position and the
//! displaced values travel one step along the cycle.
//!
//! Built on a verified two-position swap, so no copy of a non-`Copy` value is
//! ever created and pure data movement is kept apart from any fallible step:
//! once the engine starts no comparison runs until it has finished.

use vstd::prelude::*;

verus! {

broadcast use vstd::seq_lib::group_to_multiset_ensures;

/// Swap the elements at positions `i < j` of `v`, for any element type.
///
/// The two elements are reached through `split_at_mut`, so the swap is plain
/// safe code and never holds a second copy of a value.
pub fn vec_swap<T>(v: &mut Vec<T>, i: usize, j: usize)
    requires
        i < j < old(v)@.len(),
    ensures
        final(v)@ == old(v)@.update(i as int, old(v)@[j as int]).update(
            j as int,
            old(v)@[i as int],
        ),
        final(v)@.to_multiset() == old(v)@.to_multiset(),
{
    let s = v.as_mut_slice();
    let (front, back) = s.split_at_mut(j);
    let (_, mid) = front.split_at_mut(i);
    let a = mid.first_mut().unwrap();
    let b = back.first_mut().unwrap();
    core::mem::swap(a, b);
    proof {
        let pre = old(v)@;
        assert(v@ =~= pre.update(i as int, pre[j as int]).update(j as int, pre[i as int]));
        lemma_swap_preserves_multiset(pre, i as int, j as int);
    }
}

/// Swapping two positions of a sequence does not change its multiset of
/// elements.
proof fn lemma_swap_preserves_multiset<T>(s: Seq<T>, i: int, j: int)
    requires
        0 <= i < s.len(),
        0 <= j < s.len(),
        i != j,
    ensures
        s.update(i, s[j]).update(j, s[i]).to_multiset() == s.to_multiset(),
{
    broadcast use vstd::multiset::group_multiset_axioms;

    let s1 = s.update(i, s[j]);
    assert(s.to_multiset().count(s[i]) > 0);
    assert(s1.to_multiset().count(s[j]) > 0) by {
        assert(s1[i] == s[j]);
    }
    assert(s1.update(j, s[i]).to_multiset() =~= s.to_multiset());
}

/// True when position `p` occurs among the first `k` entries of `ps`.
pub open spec fn among(ps: Seq<usize>, k: int, p: int) -> bool {
    exists|i: int| 0 <= i < k && ps[i] == p
}

/// A well-formed cycle over a sequence of length `len`: the two position lists
/// have equal length, the left list rises, the right list falls, every left
/// position lies below every right position, and all positions are in bounds.
pub open spec fn cycle_wf(left: Seq<usize>, right: Seq<usize>, len: int) -> bool {
    &&& left.len() == right.len()
    &&& forall|i: int, j: int| 0 <= i < j < left.len() ==> #[trigger] left[i] < #[trigger] left[j]
    &&& forall|i: int, j: int|
        0 <= i < j < right.len() ==> #[trigger] right[i] > #[trigger] right[j]
    &&& forall|i: int, j: int|
        0 <= i < left.len() && 0 <= j < right.len() ==> #[trigger] left[i] < #[trigger] right[j]
    &&& forall|j: int| 0 <= j < right.len() ==> #[trigger] right[j] < len
}

/// The exact effect of relocating one cycle: each left position takes the
/// value of its partner right position; each right position takes the value of
/// the next left position, the last one closing the cycle with the first left
/// value; every position outside the cycle keeps its value.
pub open spec fn cycled<T>(pre: Seq<T>, post: Seq<T>, left: Seq<usize>, right: Seq<usize>) -> bool {
    let n = left.len() as int;
    &&& post.len() == pre.len()
    &&& forall|i: int| 0 <= i < n ==> post[#[trigger] left[i] as int] == pre[right[i] as int]
    &&& forall|i: int| 0 <= i < n - 1 ==> post[#[trigger] right[i] as int] == pre[left[i + 1] as int]
    &&& n > 0 ==> post[right[n - 1] as int] == pre[left[0] as int]
    &&& forall|p: int|
        0 <= p < pre.len() && !among(left, n, p) && !among(right, n, p) ==> post[p] == pre[p]
}

/// Relocate the values of `v` along the cycle described by the position lists
/// `left` and `right`, using one travelling hole: position `left[0]` receives
/// the value of `right[0]`, whose old value moves to `left[1]`, and so on,
/// until the value displaced first comes to rest at the last right position.
///
/// The multiset of elements of `v` is preserved exactly, and the engine makes
/// no comparison: it can no longer fail once it has begun.
pub fn cyclic_permute<T>(v: &mut Vec<T>, left: &Vec<usize>, right: &Vec<usize>)
    requires
        cycle_wf(left@, right@, old(v)@.len() as int),
    ensures
        final(v)@.len() == old(v)@.len(),
        cycled(old(v)@, final(v)@, left@, right@),
        final(v)@.to_multiset() == old(v)@.to_multiset(),
{
    let n = left.len();
    if n == 0 {
        return ;
    }
    let ghost pre = v@;
    vec_swap(v, left[0], right[0]);
    let mut k: usize = 1;
    while k < n
        invariant
            1 <= k <= n,
            n == left@.len(),
            cycle_wf(left@, right@, pre.len() as int),
            v@.len() == pre.len(),
            forall|j: int| 0 <= j < k ==> v@[#[trigger] left@[j] as int] == pre[right@[j] as int],
            forall|j: int|
                0 <= j < k - 1 ==> v@[#[trigger] right@[j] as int] == pre[left@[j + 1] as int],
            v@[right@[k - 1] as int] == pre[left@[0] as int],
            forall|p: int|
                0 <= p < pre.len() && !among(left@, k as int, p) && !among(right@, k as int, p)
                    ==> v@[p] == pre[p],
            v@.to_multiset() == pre.to_multiset(),
        decreases n - k,
    {
        let ghost prev = v@;
        vec_swap(v, left[k], right[k - 1]);
        let ghost mid = v@;
        vec_swap(v, left[k], right[k]);
        proof {
            assert(!among(left@, k as int, left@[k as int] as int));
            assert(!among(right@, k as int, left@[k as int] as int));
            assert(!among(left@, k as int, right@[k as int] as int));
            assert(!among(right@, k as int, right@[k as int] as int));
            assert(prev[left@[k as int] as int] == pre[left@[k as int] as int]);
            assert(prev[right@[k as int] as int] == pre[right@[k as int] as int]);
            assert forall|p: int|
                0 <= p < pre.len() && !among(left@, k as int + 1, p) && !among(
                    right@,
                    k as int + 1,
                    p,
                ) implies v@[p] == pre[p] by {
                assert(!among(left@, k as int, p));
                assert(!among(right@, k as int, p));
            }
            assert forall|j: int| 0 <= j < k + 1 implies v@[#[trigger] left@[j] as int]
                == pre[right@[j] as int] by {
                if j < k {
                    assert(left@[j] != left@[k as int]);
                    assert(left@[j] < right@[k as int]);
                    assert(left@[j] < right@[k as int - 1]);
                }
            }
            assert forall|j: int| 0 <= j < k implies v@[#[trigger] right@[j] as int] == pre[left@[j
                + 1] as int] by {
                if j < k - 1 {
                    assert(right@[j] > right@[k as int - 1]);
                    assert(right@[j] > right@[k as int]);
                    assert(right@[j] > left@[k as int]);
                }
            }
        }
        k = k + 1;
    }
}

/// When two equal-length sequences agree outside `[lo, hi)` and hold the same
/// multiset overall, their `[lo, hi)` ranges hold the same multiset too.
pub proof fn lemma_frame_submultiset<T>(pre: Seq<T>, post: Seq<T>, lo: int, hi: int)
    requires
        post.len() == pre.len(),
        0 <= lo <= hi <= pre.len(),
        forall|p: int| 0 <= p < pre.len() && !(lo <= p < hi) ==> post[p] == pre[p],
        post.to_multiset() == pre.to_multiset(),
    ensures
        post.subrange(lo, hi).to_multiset() == pre.subrange(lo, hi).to_multiset(),
{
    broadcast use vstd::multiset::group_multiset_axioms;

    let n = pre.len() as int;
    let pa = pre.subrange(0, lo);
    let pb = pre.subrange(lo, hi);
    let pc = pre.subrange(hi, n);
    let qa = post.subrange(0, lo);
    let qb = post.subrange(lo, hi);
    let qc = post.subrange(hi, n);
    assert(pre =~= (pa + pb) + pc);
    assert(post =~= (qa + qb) + qc);
    assert(qa =~= pa);
    assert(qc =~= pc);
    vstd::seq_lib::lemma_multiset_commutative(pa + pb, pc);
    vstd::seq_lib::lemma_multiset_commutative(pa, pb);
    vstd::seq_lib::lemma_multiset_commutative(qa + qb, qc);
    vstd::seq_lib::lemma_multiset_commutative(qa, qb);
    assert(qb.to_multiset() =~= pb.to_multiset()) by {
        assert forall|e: T| qb.to_multiset().count(e) == pb.to_multiset().count(e) by {
            assert(pre.to_multiset().count(e) == pa.to_multiset().count(e)
                + pb.to_multiset().count(e) + pc.to_multiset().count(e));
            assert(post.to_multiset().count(e) == pa.to_multiset().count(e)
                + qb.to_multiset().count(e) + pc.to_multiset().count(e));
        }
    }
}

/// When two equal-length sequences agree outside `[lo, hi)` and their
/// `[lo, hi)` ranges hold the same multiset, the whole sequences hold the
/// same multiset.
pub proof fn lemma_patch_multiset<T>(pre: Seq<T>, post: Seq<T>, lo: int, hi: int)
    requires
        post.len() == pre.len(),
        0 <= lo <= hi <= pre.len(),
        forall|p: int| 0 <= p < pre.len() && !(lo <= p < hi) ==> post[p] == pre[p],
        post.subrange(lo, hi).to_multiset() == pre.subrange(lo, hi).to_multiset(),
    ensures
        post.to_multiset() == pre.to_multiset(),
{
    broadcast use vstd::multiset::group_multiset_axioms;

    let n = pre.len() as int;
    let pa = pre.subrange(0, lo);
    let pb = pre.subrange(lo, hi);
    let pc = pre.subrange(hi, n);
    let qb = post.subrange(lo, hi);
    assert(pre =~= (pa + pb) + pc);
    assert(post =~= (pa + qb) + pc);
    vstd::seq_lib::lemma_multiset_commutative(pa + pb, pc);
    vstd::seq_lib::lemma_multiset_commutative(pa, pb);
    vstd::seq_lib::lemma_multiset_commutative(pa + qb, pc);
    vstd::seq_lib::lemma_multiset_commutative(pa, qb);
    assert(post.to_multiset() =~= pre.to_multiset()) by {
        assert forall|e: T| post.to_multiset().count(e) == pre.to_multiset().count(e) by {
            assert(pre.to_multiset().count(e) == pa.to_multiset().count(e)
                + pb.to_multiset().count(e) + pc.to_multiset().count(e));
            assert(post.to_multiset().count(e) == pa.to_multiset().count(e)
                + qb.to_multiset().count(e) + pc.to_multiset().count(e));
        }
    }
}

} // verus!
