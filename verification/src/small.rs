//! The two small-range partition strategies.  Both accept only ranges
//! strictly shorter than [`MAX_SMALL_PARTITION_LEN`] — the bound is a hard
//! precondition, not a silent fallback — and both leave everything outside
//! the range untouched.
//!
//! The scratch-copy strategy serves plain-data (`Copy`) element types: it
//! judges every element first, building the partitioned picture in scratch
//! storage, and only then writes the range back, so the range is still in its
//! original state when the last comparison runs.  The minimal-move strategy
//! serves every type: it judges every element once without moving anything,
//! then relocates only the misplaced elements along a single cycle.

use vstd::prelude::*;
use crate::MAX_SMALL_PARTITION_LEN;
use crate::callable_on_all;
use crate::judged;
use crate::partitioned_between;
use crate::engine;
use crate::scan::offset_among;

verus! {

broadcast use vstd::seq_lib::group_to_multiset_ensures;

/// Partition `v[lo..hi)` around `pivot` through a scratch copy: every element
/// of the range is judged and copied aside, the ones judged below the pivot
/// growing a prefix and the others filling a suffix from its far end, and the
/// finished picture is then copied back over the range.  Returns the length
/// of the prefix.
///
/// No write touches `v` until every comparison of the range has been made.
pub fn small_partition_int_opt<T: Copy, F: Fn(&T, &T) -> bool>(
    v: &mut Vec<T>,
    lo: usize,
    hi: usize,
    pivot: &T,
    less: &F,
) -> (n: usize)
    requires
        lo <= hi <= old(v)@.len(),
        hi - lo < MAX_SMALL_PARTITION_LEN,
        callable_on_all(*less),
    ensures
        final(v)@.len() == old(v)@.len(),
        forall|p: int|
            0 <= p < old(v)@.len() && !(lo <= p < hi) ==> final(v)@[p] == old(v)@[p],
        final(v)@.subrange(lo as int, hi as int).to_multiset() == old(v)@.subrange(
            lo as int,
            hi as int,
        ).to_multiset(),
        n <= hi - lo,
        partitioned_between(*less, final(v)@, *pivot, lo as int, lo + n, hi as int),
{
    // Pins the sequence's length to a machine word for the index arithmetic.
    let _len: usize = v.len();
    let ghost pre = v@;
    let mut lt_out: Vec<T> = Vec::new();
    let mut ge_out: Vec<T> = Vec::new();
    let mut i: usize = lo;
    while i < hi
        invariant
            lo <= i <= hi <= v@.len(),
            v@.len() <= usize::MAX,
            v@ == pre,
            callable_on_all(*less),
            lt_out@.len() + ge_out@.len() == i - lo,
            forall|k: int|
                0 <= k < lt_out@.len() ==> #[trigger] judged(*less, lt_out@[k], *pivot, true),
            forall|k: int|
                0 <= k < ge_out@.len() ==> #[trigger] judged(*less, ge_out@[k], *pivot, false),
            lt_out@.to_multiset().add(ge_out@.to_multiset()) == pre.subrange(
                lo as int,
                i as int,
            ).to_multiset(),
        decreases hi - i,
    {
        let ghost lt_snap = lt_out@;
        let ghost ge_snap = ge_out@;
        let e = v[i];
        if less(&e, pivot) {
            lt_out.push(e);
        } else {
            ge_out.push(e);
        }
        proof {
            assert(pre.subrange(lo as int, i + 1) =~= pre.subrange(lo as int, i as int).push(
                pre[i as int],
            ));
            assert(lt_out@.to_multiset().add(ge_out@.to_multiset()) =~= lt_snap.to_multiset().add(
                ge_snap.to_multiset(),
            ).insert(pre[i as int]));
        }
        i = i + 1;
    }
    let lt_count = lt_out.len();
    let ge_count = ge_out.len();
    let mut k: usize = 0;
    while k < lt_count
        invariant
            k <= lt_count,
            lt_count == lt_out@.len(),
            lt_count + ge_count == hi - lo,
            lo <= hi <= v@.len(),
            v@.len() == pre.len(),
            forall|p: int| 0 <= p < v@.len() && !(lo <= p < lo + k) ==> v@[p] == pre[p],
            forall|m: int| 0 <= m < k ==> v@[lo + m] == lt_out@[m],
        decreases lt_count - k,
    {
        v[lo + k] = lt_out[k];
        k = k + 1;
    }
    let ghost mid = v@;
    let mut k2: usize = 0;
    while k2 < ge_count
        invariant
            k2 <= ge_count,
            ge_count == ge_out@.len(),
            lt_count + ge_count == hi - lo,
            lo <= hi <= v@.len(),
            v@.len() == mid.len(),
            forall|p: int| 0 <= p < v@.len() && !(hi - k2 <= p < hi) ==> v@[p] == mid[p],
            forall|m: int| 0 <= m < k2 ==> v@[hi - 1 - m] == ge_out@[m],
        decreases ge_count - k2,
    {
        v[hi - 1 - k2] = ge_out[k2];
        k2 = k2 + 1;
    }
    proof {
        assert(v@.subrange(lo as int, hi as int) =~= lt_out@ + ge_out@.reverse());
        vstd::seq_lib::lemma_multiset_commutative(lt_out@, ge_out@.reverse());
        ge_out@.lemma_reverse_to_multiset();
        assert(v@.subrange(lo as int, hi as int).to_multiset() =~= pre.subrange(
            lo as int,
            hi as int,
        ).to_multiset());
        assert forall|p: int| lo <= p < lo + lt_count implies #[trigger] judged(
            *less,
            v@[p],
            *pivot,
            true,
        ) by {
            assert(v@[p] == lt_out@[p - lo]);
        }
        assert forall|p: int| lo + lt_count <= p < hi implies #[trigger] judged(
            *less,
            v@[p],
            *pivot,
            false,
        ) by {
            assert(v@[p] == ge_out@[hi - 1 - p]);
        }
    }
    lt_count
}

/// How many of the first `k` judgments recorded in `cls` were "below the
/// pivot".
pub open spec fn count_lt(cls: Seq<bool>, k: int) -> int
    decreases k,
{
    if k <= 0 {
        0
    } else {
        count_lt(cls, k - 1) + (if cls[k - 1] {
            1int
        } else {
            0int
        })
    }
}

/// How many of the first `k` judgments recorded in `cls` were "not below".
pub open spec fn count_ge(cls: Seq<bool>, k: int) -> int {
    k - count_lt(cls, k)
}

/// `count_lt` never falls and never grows faster than the range it counts.
proof fn lemma_count_lt_bounds(cls: Seq<bool>, j: int, k: int)
    requires
        0 <= j <= k,
    ensures
        count_lt(cls, j) <= count_lt(cls, k) <= count_lt(cls, j) + (k - j),
    decreases k - j,
{
    if j < k {
        lemma_count_lt_bounds(cls, j, k - 1);
    }
}

/// Counting a fixed prefix is unaffected by appending a judgment.
proof fn lemma_count_lt_push(cls: Seq<bool>, b: bool, k: int)
    requires
        0 <= k <= cls.len(),
    ensures
        count_lt(cls.push(b), k) == count_lt(cls, k),
    decreases k,
{
    if k > 0 {
        lemma_count_lt_push(cls, b, k - 1);
    }
}



/// The bookkeeping one judging scan of a range of width `cls.len()` leaves
/// behind: `lt_idx` lists, in rising order, the offsets judged "below the
/// pivot", `ge_idx` the offsets judged "not below", and each entry's index in
/// its list equals the number of same-judgment offsets before it.
pub open spec fn scan_facts(cls: Seq<bool>, lt_idx: Seq<u8>, ge_idx: Seq<u8>) -> bool {
    &&& lt_idx.len() == count_lt(cls, cls.len() as int)
    &&& ge_idx.len() == count_ge(cls, cls.len() as int)
    &&& forall|j: int| 0 <= j < lt_idx.len() ==> ((#[trigger] lt_idx[j]) as int) < cls.len()
    &&& forall|j: int| 0 <= j < lt_idx.len() ==> cls[(#[trigger] lt_idx[j]) as int]
    &&& forall|j: int| 0 <= j < lt_idx.len() ==> count_lt(cls, (#[trigger] lt_idx[j]) as int) == j
    &&& forall|j: int, k: int| 0 <= j < k < lt_idx.len() ==> lt_idx[j] < lt_idx[k]
    &&& forall|j: int| 0 <= j < ge_idx.len() ==> ((#[trigger] ge_idx[j]) as int) < cls.len()
    &&& forall|j: int| 0 <= j < ge_idx.len() ==> !cls[(#[trigger] ge_idx[j]) as int]
    &&& forall|j: int| 0 <= j < ge_idx.len() ==> count_ge(cls, (#[trigger] ge_idx[j]) as int) == j
    &&& forall|j: int, k: int| 0 <= j < k < ge_idx.len() ==> ge_idx[j] < ge_idx[k]
    &&& forall|p: int|
        #![trigger cls[p]]
        0 <= p < cls.len() ==> (cls[p] ==> offset_among(lt_idx, p)) && (!cls[p] ==> offset_among(
            ge_idx,
            p,
        ))
}

/// `cls` records, offset by offset, how the predicate judged `s[lo + p]`.
pub open spec fn judged_by_class<T, F: Fn(&T, &T) -> bool>(
    less: F,
    s: Seq<T>,
    lo: int,
    pivot: T,
    cls: Seq<bool>,
) -> bool {
    forall|p: int| #![trigger cls[p]] 0 <= p < cls.len() ==> judged(less, s[lo + p], pivot, cls[p])
}

/// Judge every element of `v[lo..hi)` once, moving nothing: returns the
/// rising offset lists of the elements judged "not below" and "below" the
/// pivot, with the judgment record they index into.
fn scan_range<T, F: Fn(&T, &T) -> bool>(
    v: &Vec<T>,
    lo: usize,
    hi: usize,
    pivot: &T,
    less: &F,
) -> (r: (Vec<u8>, Vec<u8>, Ghost<Seq<bool>>))
    requires
        lo <= hi <= v@.len(),
        hi - lo < MAX_SMALL_PARTITION_LEN,
        callable_on_all(*less),
    ensures
        r.2@.len() == hi - lo,
        scan_facts(r.2@, r.0@, r.1@),
        judged_by_class(*less, v@, lo as int, *pivot, r.2@),
{
    // Pins the sequence's length to a machine word for the index arithmetic.
    let _len: usize = v.len();
    let mut lt_idx: Vec<u8> = Vec::new();
    let mut ge_idx: Vec<u8> = Vec::new();
    let ghost mut cls: Seq<bool> = Seq::empty();
    let mut i: usize = lo;
    while i < hi
        invariant
            lo <= i <= hi <= v@.len(),
            v@.len() <= usize::MAX,
            hi - lo < MAX_SMALL_PARTITION_LEN,
            callable_on_all(*less),
            cls.len() == i - lo,
            scan_facts(cls, lt_idx@, ge_idx@),
            judged_by_class(*less, v@, lo as int, *pivot, cls),
        decreases hi - i,
    {
        let ghost cls_snap = cls;
        let ghost lt_snap = lt_idx@;
        let ghost ge_snap = ge_idx@;
        let r = less(&v[i], pivot);
        proof {
            cls = cls.push(r);
        }
        if r {
            lt_idx.push((i - lo) as u8);
        } else {
            ge_idx.push((i - lo) as u8);
        }
        proof {
            lemma_count_lt_push(cls_snap, r, cls_snap.len() as int);
            assert(cls[cls_snap.len() as int] == r);
            assert forall|j: int| 0 <= j < lt_idx@.len() implies count_lt(
                cls,
                (lt_idx@[j]) as int,
            ) == j by {
                lemma_count_lt_push(cls_snap, r, lt_idx@[j] as int);
            }
            assert forall|j: int| 0 <= j < ge_idx@.len() implies count_ge(
                cls,
                (ge_idx@[j]) as int,
            ) == j by {
                lemma_count_lt_push(cls_snap, r, ge_idx@[j] as int);
            }
            assert forall|p: int|
                #![trigger cls[p]]
                0 <= p < cls.len() implies (cls[p] ==> offset_among(lt_idx@, p)) && (!cls[p]
                    ==> offset_among(ge_idx@, p)) by {
                if p < cls_snap.len() {
                    if cls[p] {
                        let j = choose|j: int| 0 <= j < lt_snap.len() && lt_snap[j] == p;
                        assert(lt_idx@[j] == p);
                    } else {
                        let j = choose|j: int| 0 <= j < ge_snap.len() && ge_snap[j] == p;
                        assert(ge_idx@[j] == p);
                    }
                } else {
                    if r {
                        assert(lt_idx@[lt_idx@.len() - 1] == p);
                    } else {
                        assert(ge_idx@[ge_idx@.len() - 1] == p);
                    }
                }
            }
            assert(scan_facts(cls, lt_idx@, ge_idx@));
        }
        i = i + 1;
    }
    (lt_idx, ge_idx, Ghost(cls))
}

/// Where the judged offsets may lie relative to the partition point
/// `lt_count`, once `m` is known to split `ge_idx` into a "below the point"
/// prefix and an "at or beyond" suffix: the cycle is no longer than the
/// prefix it fills, the first `m` entries of the reversed "below" list lie at
/// or beyond the point, and all later ones lie before it.
proof fn lemma_cycle_extent(cls: Seq<bool>, lt_idx: Seq<u8>, ge_idx: Seq<u8>, m: int)
    requires
        scan_facts(cls, lt_idx, ge_idx),
        0 <= m <= ge_idx.len(),
        forall|j: int| 0 <= j < m ==> ((#[trigger] ge_idx[j]) as int) < lt_idx.len(),
        forall|j: int| m <= j < ge_idx.len() ==> ((#[trigger] ge_idx[j]) as int) >= lt_idx.len(),
    ensures
        m <= lt_idx.len(),
        forall|i0: int|
            0 <= i0 < m ==> ((#[trigger] lt_idx[lt_idx.len() - 1 - i0]) as int) >= lt_idx.len(),
        forall|i0: int|
            m <= i0 < lt_idx.len() ==> ((#[trigger] lt_idx[lt_idx.len() - 1 - i0]) as int)
                < lt_idx.len(),
{
    let lt_count = lt_idx.len() as int;
    let w = cls.len() as int;
    lemma_count_lt_bounds(cls, 0, w);
    if m > 0 {
        let g = ge_idx[m - 1] as int;
        assert(count_lt(cls, g + 1) == count_lt(cls, g));
        lemma_count_lt_bounds(cls, g + 1, lt_count);
        lemma_count_lt_bounds(cls, 0, lt_count);
    }
    assert forall|i0: int| 0 <= i0 < m implies ((#[trigger] lt_idx[lt_count - 1 - i0]) as int)
        >= lt_count by {
        let q = lt_idx[lt_count - 1 - i0] as int;
        if q < lt_count {
            assert(count_lt(cls, q) == lt_count - 1 - i0);
            assert(cls[q]);
            assert(count_lt(cls, q + 1) == lt_count - i0);
            lemma_count_lt_bounds(cls, q + 1, lt_count);
            let g = ge_idx[i0] as int;
            assert(!cls[g]);
            assert(count_lt(cls, g + 1) == count_lt(cls, g));
            lemma_count_lt_bounds(cls, g + 1, lt_count);
            assert(false);
        }
    }
    assert forall|i0: int| m <= i0 < lt_count implies ((#[trigger] lt_idx[lt_count - 1
        - i0]) as int) < lt_count by {
        let q = lt_idx[lt_count - 1 - i0] as int;
        if q >= lt_count {
            assert(count_lt(cls, q) == lt_count - 1 - i0);
            lemma_count_lt_bounds(cls, lt_count, q);
            if m < ge_idx.len() {
                let g = ge_idx[m] as int;
                assert(count_ge(cls, g) == m);
                lemma_count_lt_bounds(cls, lt_count, g);
            } else {
                lemma_count_lt_bounds(cls, lt_count, w);
            }
            assert(false);
        }
    }
}


/// After the cycle has run, the range is partitioned at the point the counts
/// fixed, everything outside the range is untouched, and the range holds the
/// multiset it held before.
proof fn lemma_move_opt_post<T, F: Fn(&T, &T) -> bool>(
    less: F,
    pivot: T,
    pre: Seq<T>,
    post: Seq<T>,
    cls: Seq<bool>,
    lt_idx: Seq<u8>,
    ge_idx: Seq<u8>,
    lt_rev: Seq<u8>,
    left: Seq<usize>,
    right: Seq<usize>,
    lo: int,
    hi: int,
    m: int,
)
    requires
        0 <= lo <= hi <= pre.len(),
        cls.len() == hi - lo,
        scan_facts(cls, lt_idx, ge_idx),
        judged_by_class(less, pre, lo, pivot, cls),
        lt_rev.len() == lt_idx.len(),
        forall|j: int| 0 <= j < lt_rev.len() ==> lt_rev[j] == lt_idx[lt_idx.len() - 1 - j],
        0 <= m <= ge_idx.len(),
        m <= lt_idx.len(),
        forall|j: int| 0 <= j < m ==> ((#[trigger] ge_idx[j]) as int) < lt_idx.len(),
        forall|j: int| m <= j < ge_idx.len() ==> ((#[trigger] ge_idx[j]) as int) >= lt_idx.len(),
        forall|i0: int| 0 <= i0 < m ==> ((#[trigger] lt_rev[i0]) as int) >= lt_idx.len(),
        forall|i0: int|
            m <= i0 < lt_rev.len() ==> ((#[trigger] lt_rev[i0]) as int) < lt_idx.len(),
        left.len() == m,
        right.len() == m,
        forall|j: int| 0 <= j < m ==> ((#[trigger] left[j]) as int) == lo + ge_idx[j] as int,
        forall|j: int| 0 <= j < m ==> ((#[trigger] right[j]) as int) == lo + lt_rev[j] as int,
        post.len() == pre.len(),
        engine::cycled(pre, post, left, right),
        post.to_multiset() == pre.to_multiset(),
    ensures
        forall|p: int| 0 <= p < pre.len() && !(lo <= p < hi) ==> post[p] == pre[p],
        post.subrange(lo, hi).to_multiset() == pre.subrange(lo, hi).to_multiset(),
        partitioned_between(less, post, pivot, lo, lo + lt_idx.len(), hi),
{
    let lt_count = lt_idx.len() as int;
    assert forall|p: int| 0 <= p < pre.len() && !(lo <= p < hi) implies post[p] == pre[p] by {
        assert(!engine::among(left, m, p)) by {
            if engine::among(left, m, p) {
                let j = choose|j: int| 0 <= j < m && left[j] == p;
                assert((left[j] as int) == lo + ge_idx[j] as int);
            }
        }
        assert(!engine::among(right, m, p)) by {
            if engine::among(right, m, p) {
                let j = choose|j: int| 0 <= j < m && right[j] == p;
                assert((right[j] as int) == lo + lt_rev[j] as int);
            }
        }
    }
    engine::lemma_frame_submultiset(pre, post, lo, hi);
    assert forall|p: int| lo <= p < lo + lt_count implies #[trigger] judged(
        less,
        post[p],
        pivot,
        true,
    ) by {
        let rel = p - lo;
        if engine::among(left, m, p) {
            let j = choose|j: int| 0 <= j < m && left[j] == p;
            assert(post[left[j] as int] == pre[right[j] as int]);
            let q = lt_rev[j] as int;
            assert((right[j] as int) == lo + q);
            assert(q == lt_idx[lt_count - 1 - j]);
            assert(cls[q]);
            assert(judged(less, pre[lo + q], pivot, cls[q]));
        } else {
            assert(!engine::among(right, m, p)) by {
                if engine::among(right, m, p) {
                    let j = choose|j: int| 0 <= j < m && right[j] == p;
                    assert((lt_rev[j] as int) >= lt_count);
                }
            }
            assert(post[p] == pre[p]);
            assert(cls[rel]) by {
                if !cls[rel] {
                    assert(offset_among(ge_idx, rel));
                    let j = choose|j: int| 0 <= j < ge_idx.len() && ge_idx[j] == rel;
                    assert(j < m) by {
                        if j >= m {
                            assert((ge_idx[j] as int) >= lt_count);
                        }
                    }
                    assert((left[j] as int) == lo + rel);
                    assert(engine::among(left, m, p));
                }
            }
            assert(judged(less, pre[lo + rel], pivot, cls[rel]));
        }
    }
    assert forall|p: int| lo + lt_count <= p < hi implies #[trigger] judged(
        less,
        post[p],
        pivot,
        false,
    ) by {
        let rel = p - lo;
        if engine::among(right, m, p) {
            let j = choose|j: int| 0 <= j < m && right[j] == p;
            if j < m - 1 {
                assert(post[right[j] as int] == pre[left[j + 1] as int]);
                let g = ge_idx[j + 1] as int;
                assert((left[j + 1] as int) == lo + g);
                assert(!cls[g]);
                assert(judged(less, pre[lo + g], pivot, cls[g]));
            } else {
                assert(post[right[m - 1] as int] == pre[left[0] as int]);
                let g = ge_idx[0] as int;
                assert((left[0] as int) == lo + g);
                assert(!cls[g]);
                assert(judged(less, pre[lo + g], pivot, cls[g]));
            }
        } else {
            assert(!engine::among(left, m, p)) by {
                if engine::among(left, m, p) {
                    let j = choose|j: int| 0 <= j < m && left[j] == p;
                    assert((ge_idx[j] as int) < lt_count);
                }
            }
            assert(post[p] == pre[p]);
            assert(!cls[rel]) by {
                if cls[rel] {
                    assert(offset_among(lt_idx, rel));
                    let c = choose|c: int| 0 <= c < lt_idx.len() && lt_idx[c] == rel;
                    let i0 = lt_count - 1 - c;
                    assert(lt_rev[i0] == lt_idx[c]);
                    assert(i0 < m) by {
                        if i0 >= m {
                            assert((lt_rev[i0] as int) < lt_count);
                        }
                    }
                    assert((right[i0] as int) == lo + rel);
                    assert(engine::among(right, m, p));
                }
            }
            assert(judged(less, pre[lo + rel], pivot, cls[rel]));
        }
    }
}

/// Partition `v[lo..hi)` around `pivot` with the minimal number of moves:
/// one scan judges every element of the range exactly once, recording the
/// offsets judged "not below" forward and the offsets judged "below"
/// backward, without moving anything; the partition point is then known from
/// the counts, and only the elements on the wrong side of it — the rising
/// prefix of one list paired with the falling prefix of the other — are
/// relocated along a single cycle.  Returns the prefix length.
///
/// An already partitioned range yields an empty cycle and costs no element
/// relocation at all.
pub fn small_partition_move_opt<T, F: Fn(&T, &T) -> bool>(
    v: &mut Vec<T>,
    lo: usize,
    hi: usize,
    pivot: &T,
    less: &F,
) -> (n: usize)
    requires
        lo <= hi <= old(v)@.len(),
        hi - lo < MAX_SMALL_PARTITION_LEN,
        callable_on_all(*less),
    ensures
        final(v)@.len() == old(v)@.len(),
        forall|p: int|
            0 <= p < old(v)@.len() && !(lo <= p < hi) ==> final(v)@[p] == old(v)@[p],
        final(v)@.subrange(lo as int, hi as int).to_multiset() == old(v)@.subrange(
            lo as int,
            hi as int,
        ).to_multiset(),
        n <= hi - lo,
        partitioned_between(*less, final(v)@, *pivot, lo as int, lo + n, hi as int),
{
    // Pins the sequence's length to a machine word for the index arithmetic.
    let _len: usize = v.len();
    let ghost pre = v@;
    let ghost w: int = hi as int - lo as int;
    let (lt_idx, ge_idx, cls_g) = scan_range(v, lo, hi, pivot, less);
    let ghost cls = cls_g@;
    let lt_count = lt_idx.len();
    let ge_count = ge_idx.len();
    proof {
        lemma_count_lt_bounds(cls, 0, w);
    }
    let mut lt_rev: Vec<u8> = Vec::new();
    let mut k: usize = lt_count;
    while k > 0
        invariant
            k <= lt_count,
            lt_count == lt_idx@.len(),
            lt_rev@.len() == lt_count - k,
            forall|j: int| 0 <= j < lt_rev@.len() ==> lt_rev@[j] == lt_idx@[lt_count - 1 - j],
        decreases k,
    {
        k = k - 1;
        lt_rev.push(lt_idx[k]);
    }
    let mut m: usize = 0;
    while m < ge_count && (ge_idx[m] as usize) < lt_count
        invariant
            m <= ge_count,
            ge_count == ge_idx@.len(),
            lt_count == lt_idx@.len(),
            forall|j: int| 0 <= j < m ==> ((#[trigger] ge_idx@[j]) as int) < lt_count,
        decreases ge_count - m,
    {
        m = m + 1;
    }
    proof {
        assert forall|j: int| m <= j < ge_count implies ((#[trigger] ge_idx@[j]) as int)
            >= lt_count by {
            if j > m {
                assert(ge_idx@[m as int] <= ge_idx@[j]);
            }
        }
        lemma_cycle_extent(cls, lt_idx@, ge_idx@, m as int);
        assert forall|i0: int| 0 <= i0 < m implies ((#[trigger] lt_rev@[i0]) as int)
            >= lt_count by {
            assert(lt_rev@[i0] == lt_idx@[lt_count - 1 - i0]);
        }
        assert forall|i0: int| m <= i0 < lt_rev@.len() implies ((#[trigger] lt_rev@[i0]) as int)
            < lt_count by {
            assert(lt_rev@[i0] == lt_idx@[lt_count - 1 - i0]);
        }
    }
    let mut left: Vec<usize> = Vec::new();
    let mut a: usize = 0;
    while a < m
        invariant
            a <= m,
            m <= ge_count,
            ge_count == ge_idx@.len(),
            lo <= hi <= v@.len(),
            v@.len() <= usize::MAX,
            lo + w == hi,
            forall|j: int| 0 <= j < ge_idx@.len() ==> ((#[trigger] ge_idx@[j]) as int) < w,
            left@.len() == a,
            forall|j: int| 0 <= j < a ==> ((#[trigger] left@[j]) as int) == lo + ge_idx@[j] as int,
        decreases m - a,
    {
        left.push(lo + (ge_idx[a] as usize));
        a = a + 1;
    }
    let mut right: Vec<usize> = Vec::new();
    let mut b: usize = 0;
    while b < m
        invariant
            b <= m,
            m <= lt_count,
            lt_count == lt_rev@.len(),
            lo <= hi <= v@.len(),
            v@.len() <= usize::MAX,
            lo + w == hi,
            forall|j: int| 0 <= j < lt_rev@.len() ==> ((#[trigger] lt_rev@[j]) as int) < w,
            right@.len() == b,
            forall|j: int| 0 <= j < b ==> ((#[trigger] right@[j]) as int) == lo + lt_rev@[j] as int,
        decreases m - b,
    {
        right.push(lo + (lt_rev[b] as usize));
        b = b + 1;
    }
    proof {
        assert forall|i0: int, j: int|
            0 <= i0 < left@.len() && 0 <= j < right@.len() implies #[trigger] left@[i0]
            < #[trigger] right@[j] by {
            assert((ge_idx@[i0] as int) < lt_count);
            assert((lt_rev@[j] as int) >= lt_count);
        }
        assert(engine::cycle_wf(left@, right@, v@.len() as int));
    }
    engine::cyclic_permute(v, &left, &right);
    proof {
        lemma_move_opt_post(
            *less,
            *pivot,
            pre,
            v@,
            cls,
            lt_idx@,
            ge_idx@,
            lt_rev@,
            left@,
            right@,
            lo as int,
            hi as int,
            m as int,
        );
    }
    lt_count
}

} // verus!
