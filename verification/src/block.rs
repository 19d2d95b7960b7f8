//! The block partitioner: walks two fixed-width windows inward from the two
//! ends of the sequence, classifies each window in one scan, and exchanges
//! misplaced elements between the windows along cycles, leaving a bounded,
//! still unpartitioned residual range in the middle.

use vstd::prelude::*;
use crate::BLOCK_PARTITION_BLOCK_SIZE;
use crate::MAX_SMALL_PARTITION_LEN;
use crate::callable_on_all;
use crate::judged;
use crate::engine;
use crate::scan;
use crate::scan::offset_among;

verus! {

/// True when offset `o` occurs in `offs` at or after position `from`.
pub open spec fn offset_among_from(offs: Seq<u8>, from: int, o: int) -> bool {
    exists|j: int| from <= j < offs.len() && offs[j] == o
}

/// The standing state of one window whose offsets were recorded and partly
/// consumed: the entries from `pos` on are in-window offsets of elements
/// judged `want`, and every other position of the window holds an element
/// judged the other way — either never recorded, or refilled by an exchange.
pub open spec fn window_state<T, F: Fn(&T, &T) -> bool>(
    less: F,
    s: Seq<T>,
    base: int,
    pivot: T,
    want: bool,
    offs: Seq<u8>,
    pos: int,
) -> bool {
    &&& 0 <= pos <= offs.len()
    &&& offs.len() <= BLOCK_PARTITION_BLOCK_SIZE
    &&& forall|j: int|
        pos <= j < offs.len() ==> ((#[trigger] offs[j]) as int) < BLOCK_PARTITION_BLOCK_SIZE
    &&& forall|j: int|
        pos <= j < offs.len() ==> #[trigger] judged(less, s[base + offs[j] as int], pivot, want)
    &&& forall|o: int|
        #![trigger offset_among_from(offs, pos, o)]
        0 <= o < BLOCK_PARTITION_BLOCK_SIZE && !offset_among_from(offs, pos, o) ==> judged(
            less,
            s[base + o],
            pivot,
            !want,
        )
}

/// A freshly scanned window is a window whose offsets are wholly unconsumed.
proof fn lemma_window_from_scan<T, F: Fn(&T, &T) -> bool>(
    less: F,
    s: Seq<T>,
    base: int,
    pivot: T,
    want: bool,
    offs: Seq<u8>,
)
    requires
        scan::scanned_window(less, s, base, pivot, want, offs),
    ensures
        window_state(less, s, base, pivot, want, offs, 0),
{
    assert forall|o: int|
        0 <= o < BLOCK_PARTITION_BLOCK_SIZE && !offset_among_from(offs, 0, o) implies judged(
        less,
        s[base + o],
        pivot,
        !want,
    ) by {
        assert(!offset_among(offs, o)) by {
            if offset_among(offs, o) {
                let j = choose|j: int| 0 <= j < offs.len() && offs[j] == o;
                assert(offset_among_from(offs, 0, o));
            }
        }
    }
}

/// One exchange step: relocating one cycle of `sc` misplaced pairs between
/// the two windows advances both windows' read positions by `sc`, keeps both
/// windows' standing state, and keeps both settled outer regions settled.
#[verifier::rlimit(100)]
#[verifier::spinoff_prover]
proof fn lemma_blocks_after_cycle<T, F: Fn(&T, &T) -> bool>(
    less: F,
    pivot: T,
    pre: Seq<T>,
    post: Seq<T>,
    l: int,
    r: int,
    l_offs: Seq<u8>,
    l_pos: int,
    r_offs: Seq<u8>,
    r_pos: int,
    left: Seq<usize>,
    right: Seq<usize>,
    sc: int,
)
    requires
        0 <= l,
        l + BLOCK_PARTITION_BLOCK_SIZE <= r,
        r + BLOCK_PARTITION_BLOCK_SIZE <= pre.len(),
        window_state(less, pre, l, pivot, false, l_offs, l_pos),
        window_state(less, pre, r, pivot, true, r_offs, r_pos),
        forall|j: int, k: int| l_pos <= j < k < l_offs.len() ==> l_offs[j] < l_offs[k],
        forall|j: int, k: int| r_pos <= j < k < r_offs.len() ==> r_offs[j] > r_offs[k],
        left.len() == sc,
        right.len() == sc,
        0 <= sc,
        l_pos + sc <= l_offs.len(),
        r_pos + sc <= r_offs.len(),
        forall|i: int|
            0 <= i < sc ==> ((#[trigger] left[i]) as int) == l + l_offs[l_pos + i] as int,
        forall|i: int|
            0 <= i < sc ==> ((#[trigger] right[i]) as int) == r + r_offs[r_pos + i] as int,
        post.len() == pre.len(),
        engine::cycled(pre, post, left, right),
        forall|i: int| 0 <= i < l ==> #[trigger] judged(less, pre[i], pivot, true),
        forall|i: int|
            r + BLOCK_PARTITION_BLOCK_SIZE <= i < pre.len() ==> #[trigger] judged(
                less,
                pre[i],
                pivot,
                false,
            ),
    ensures
        window_state(less, post, l, pivot, false, l_offs, l_pos + sc),
        window_state(less, post, r, pivot, true, r_offs, r_pos + sc),
        forall|i: int| 0 <= i < l ==> #[trigger] judged(less, post[i], pivot, true),
        forall|i: int|
            r + BLOCK_PARTITION_BLOCK_SIZE <= i < post.len() ==> #[trigger] judged(
                less,
                post[i],
                pivot,
                false,
            ),
{
    let bw = BLOCK_PARTITION_BLOCK_SIZE as int;
    // The settled outer regions lie outside every cycle position.
    assert forall|p: int|
        0 <= p < pre.len() && !(l <= p < l + bw) && !(r <= p < r + bw) implies post[p]
        == pre[p] by {
        assert(!engine::among(left, sc, p)) by {
            if engine::among(left, sc, p) {
                let i = choose|i: int| 0 <= i < sc && left[i] == p;
                assert((left[i] as int) == l + l_offs[l_pos + i] as int);
            }
        }
        assert(!engine::among(right, sc, p)) by {
            if engine::among(right, sc, p) {
                let i = choose|i: int| 0 <= i < sc && right[i] == p;
                assert((right[i] as int) == r + r_offs[r_pos + i] as int);
            }
        }
    }
    // The left window keeps its standing state, `sc` entries further on.
    assert forall|j: int| l_pos + sc <= j < l_offs.len() implies #[trigger] judged(
        less,
        post[l + l_offs[j] as int],
        pivot,
        false,
    ) by {
        let p = l + l_offs[j] as int;
        assert(!engine::among(left, sc, p)) by {
            if engine::among(left, sc, p) {
                let i = choose|i: int| 0 <= i < sc && left[i] == p;
                assert(l_offs[l_pos + i] < l_offs[j]);
            }
        }
        assert(!engine::among(right, sc, p)) by {
            if engine::among(right, sc, p) {
                let i = choose|i: int| 0 <= i < sc && right[i] == p;
                assert((right[i] as int) == r + r_offs[r_pos + i] as int);
            }
        }
        assert(post[p] == pre[p]);
    }
    assert forall|o: int|
        #![trigger offset_among_from(l_offs, l_pos + sc, o)]
        0 <= o < bw && !offset_among_from(l_offs, l_pos + sc, o) implies judged(
        less,
        post[l + o],
        pivot,
        true,
    ) by {
        let p = l + o;
        if engine::among(left, sc, p) {
            let i = choose|i: int| 0 <= i < sc && left[i] == p;
            assert(post[left[i] as int] == pre[right[i] as int]);
            assert(judged(less, pre[r + r_offs[r_pos + i] as int], pivot, true));
        } else {
            assert(!engine::among(right, sc, p)) by {
                if engine::among(right, sc, p) {
                    let i = choose|i: int| 0 <= i < sc && right[i] == p;
                    assert((right[i] as int) == r + r_offs[r_pos + i] as int);
                }
            }
            assert(post[p] == pre[p]);
            assert(!offset_among_from(l_offs, l_pos, o)) by {
                if offset_among_from(l_offs, l_pos, o) {
                    let j = choose|j: int| l_pos <= j < l_offs.len() && l_offs[j] == o;
                    if j < l_pos + sc {
                        assert((left[j - l_pos] as int) == l + l_offs[j] as int);
                        assert(engine::among(left, sc, p));
                    } else {
                        assert(offset_among_from(l_offs, l_pos + sc, o));
                    }
                }
            }
        }
    }
    // The right window keeps its standing state, `sc` entries further on.
    assert forall|j: int| r_pos + sc <= j < r_offs.len() implies #[trigger] judged(
        less,
        post[r + r_offs[j] as int],
        pivot,
        true,
    ) by {
        let p = r + r_offs[j] as int;
        assert(!engine::among(right, sc, p)) by {
            if engine::among(right, sc, p) {
                let i = choose|i: int| 0 <= i < sc && right[i] == p;
                assert(r_offs[r_pos + i] > r_offs[j]);
            }
        }
        assert(!engine::among(left, sc, p)) by {
            if engine::among(left, sc, p) {
                let i = choose|i: int| 0 <= i < sc && left[i] == p;
                assert((left[i] as int) == l + l_offs[l_pos + i] as int);
            }
        }
        assert(post[p] == pre[p]);
    }
    assert forall|o: int|
        #![trigger offset_among_from(r_offs, r_pos + sc, o)]
        0 <= o < bw && !offset_among_from(r_offs, r_pos + sc, o) implies judged(
        less,
        post[r + o],
        pivot,
        false,
    ) by {
        let p = r + o;
        if engine::among(right, sc, p) {
            let i = choose|i: int| 0 <= i < sc && right[i] == p;
            if i < sc - 1 {
                assert(post[right[i] as int] == pre[left[i + 1] as int]);
                assert(judged(less, pre[l + l_offs[l_pos + i + 1] as int], pivot, false));
            } else {
                assert(post[right[sc - 1] as int] == pre[left[0] as int]);
                assert(judged(less, pre[l + l_offs[l_pos] as int], pivot, false));
            }
        } else {
            assert(!engine::among(left, sc, p)) by {
                if engine::among(left, sc, p) {
                    let i = choose|i: int| 0 <= i < sc && left[i] == p;
                    assert((left[i] as int) == l + l_offs[l_pos + i] as int);
                }
            }
            assert(post[p] == pre[p]);
            assert(!offset_among_from(r_offs, r_pos, o)) by {
                if offset_among_from(r_offs, r_pos, o) {
                    let j = choose|j: int| r_pos <= j < r_offs.len() && r_offs[j] == o;
                    if j < r_pos + sc {
                        assert((right[j - r_pos] as int) == r + r_offs[j] as int);
                        assert(engine::among(right, sc, p));
                    } else {
                        assert(offset_among_from(r_offs, r_pos + sc, o));
                    }
                }
            }
        }
    }
}


/// Narrow the unpartitioned part of `v` from both ends.  Returns the bounds
/// `(lo, hi)` of the residual range: on return `v[0..lo)` was judged below
/// the pivot, `v[hi..)` was judged not below it, `v` holds the multiset it
/// held before, and the residual is strictly shorter than
/// [`MAX_SMALL_PARTITION_LEN`], so a small-range strategy can finish it.
///
/// A range shorter than [`MAX_SMALL_PARTITION_LEN`] is returned whole and
/// untouched; a longer one leaves a residual shorter than two block widths.
pub fn block_partition<T, F: Fn(&T, &T) -> bool>(
    v: &mut Vec<T>,
    pivot: &T,
    less: &F,
) -> (rr: (usize, usize))
    requires
        callable_on_all(*less),
    ensures
        final(v)@.len() == old(v)@.len(),
        final(v)@.to_multiset() == old(v)@.to_multiset(),
        rr.0 <= rr.1 <= final(v)@.len(),
        rr.1 - rr.0 < MAX_SMALL_PARTITION_LEN,
        forall|i: int| 0 <= i < rr.0 ==> #[trigger] judged(*less, final(v)@[i], *pivot, true),
        forall|i: int|
            rr.1 <= i < final(v)@.len() ==> #[trigger] judged(*less, final(v)@[i], *pivot, false),
        old(v)@.len() < MAX_SMALL_PARTITION_LEN ==> rr.0 == 0 && rr.1 == old(v)@.len()
            && final(v)@ == old(v)@,
        old(v)@.len() >= MAX_SMALL_PARTITION_LEN ==> rr.1 - rr.0 < 2
            * BLOCK_PARTITION_BLOCK_SIZE,
{
    let len = v.len();
    if len < MAX_SMALL_PARTITION_LEN {
        return (0, len);
    }
    let ghost pre = v@;
    let mut l: usize = 0;
    let mut r: usize = len - BLOCK_PARTITION_BLOCK_SIZE;
    let mut l_offsets: Vec<u8> = Vec::new();
    let mut l_pos: usize = 0;
    let mut r_offsets: Vec<u8> = Vec::new();
    let mut r_pos: usize = 0;
    while l + BLOCK_PARTITION_BLOCK_SIZE <= r
        invariant
            len == v@.len(),
            len == pre.len(),
            len >= MAX_SMALL_PARTITION_LEN,
            callable_on_all(*less),
            v@.to_multiset() == pre.to_multiset(),
            l <= r + BLOCK_PARTITION_BLOCK_SIZE,
            l + BLOCK_PARTITION_BLOCK_SIZE <= len,
            r + BLOCK_PARTITION_BLOCK_SIZE <= len,
            l_pos <= l_offsets@.len(),
            r_pos <= r_offsets@.len(),
            l_pos < l_offsets@.len() ==> l + BLOCK_PARTITION_BLOCK_SIZE <= len && window_state(
                *less,
                v@,
                l as int,
                *pivot,
                false,
                l_offsets@,
                l_pos as int,
            ),
            r_pos < r_offsets@.len() ==> window_state(
                *less,
                v@,
                r as int,
                *pivot,
                true,
                r_offsets@,
                r_pos as int,
            ),
            forall|j: int, k: int|
                l_pos <= j < k < l_offsets@.len() ==> l_offsets@[j] < l_offsets@[k],
            forall|j: int, k: int|
                r_pos <= j < k < r_offsets@.len() ==> r_offsets@[j] > r_offsets@[k],
            forall|i: int| 0 <= i < l ==> #[trigger] judged(*less, v@[i], *pivot, true),
            forall|i: int|
                r + BLOCK_PARTITION_BLOCK_SIZE <= i < len ==> #[trigger] judged(
                    *less,
                    v@[i],
                    *pivot,
                    false,
                ),
        decreases r + len - l,
    {
        if l_pos == l_offsets.len() {
            scan::fill_offset_block_up(v, l, pivot, less, false, &mut l_offsets);
            l_pos = 0;
            proof {
                lemma_window_from_scan(*less, v@, l as int, *pivot, false, l_offsets@);
            }
        }
        if r_pos == r_offsets.len() {
            scan::fill_offset_block_down(v, r, pivot, less, true, &mut r_offsets);
            r_pos = 0;
            proof {
                lemma_window_from_scan(*less, v@, r as int, *pivot, true, r_offsets@);
            }
        }
        let lrem = l_offsets.len() - l_pos;
        let rrem = r_offsets.len() - r_pos;
        let sc = if lrem < rrem {
            lrem
        } else {
            rrem
        };
        let mut lefts: Vec<usize> = Vec::new();
        let mut a: usize = 0;
        while a < sc
            invariant
                a <= sc,
                l_pos + sc <= l_offsets@.len(),
                l_offsets@.len() <= BLOCK_PARTITION_BLOCK_SIZE,
                l + BLOCK_PARTITION_BLOCK_SIZE <= len,
                len <= usize::MAX,
                forall|j: int|
                    l_pos <= j < l_offsets@.len() ==> ((#[trigger] l_offsets@[j]) as int)
                        < BLOCK_PARTITION_BLOCK_SIZE,
                lefts@.len() == a,
                forall|j: int|
                    0 <= j < a ==> ((#[trigger] lefts@[j]) as int) == l + l_offsets@[l_pos
                        + j] as int,
            decreases sc - a,
        {
            lefts.push(l + (l_offsets[l_pos + a] as usize));
            a = a + 1;
        }
        let mut rights: Vec<usize> = Vec::new();
        let mut b: usize = 0;
        while b < sc
            invariant
                b <= sc,
                r_pos + sc <= r_offsets@.len(),
                r_offsets@.len() <= BLOCK_PARTITION_BLOCK_SIZE,
                r + BLOCK_PARTITION_BLOCK_SIZE <= len,
                len <= usize::MAX,
                forall|j: int|
                    r_pos <= j < r_offsets@.len() ==> ((#[trigger] r_offsets@[j]) as int)
                        < BLOCK_PARTITION_BLOCK_SIZE,
                rights@.len() == b,
                forall|j: int|
                    0 <= j < b ==> ((#[trigger] rights@[j]) as int) == r + r_offsets@[r_pos
                        + j] as int,
            decreases sc - b,
        {
            rights.push(r + (r_offsets[r_pos + b] as usize));
            b = b + 1;
        }
        proof {
            assert forall|i: int, j: int|
                0 <= i < lefts@.len() && 0 <= j < rights@.len() implies #[trigger] lefts@[i]
                < #[trigger] rights@[j] by {
                assert((lefts@[i] as int) < l + BLOCK_PARTITION_BLOCK_SIZE);
            }
            assert(engine::cycle_wf(lefts@, rights@, v@.len() as int));
        }
        let ghost vpre = v@;
        engine::cyclic_permute(v, &lefts, &rights);
        proof {
            lemma_blocks_after_cycle(
                *less,
                *pivot,
                vpre,
                v@,
                l as int,
                r as int,
                l_offsets@,
                l_pos as int,
                r_offsets@,
                r_pos as int,
                lefts@,
                rights@,
                sc as int,
            );
        }
        l_pos = l_pos + sc;
        r_pos = r_pos + sc;
        if l_pos == l_offsets.len() {
            proof {
                assert forall|i: int|
                    l <= i < l + BLOCK_PARTITION_BLOCK_SIZE implies #[trigger] judged(
                    *less,
                    v@[i],
                    *pivot,
                    true,
                ) by {
                    assert(!offset_among_from(l_offsets@, l_pos as int, i - l));
                }
            }
            l = l + BLOCK_PARTITION_BLOCK_SIZE;
        }
        if r_pos == r_offsets.len() {
            proof {
                assert forall|i: int|
                    r <= i < r + BLOCK_PARTITION_BLOCK_SIZE implies #[trigger] judged(
                    *less,
                    v@[i],
                    *pivot,
                    false,
                ) by {
                    assert(!offset_among_from(r_offsets@, r_pos as int, i - r));
                }
            }
            r = r - BLOCK_PARTITION_BLOCK_SIZE;
        }
    }
    (l, r + BLOCK_PARTITION_BLOCK_SIZE)
}

} // verus!
