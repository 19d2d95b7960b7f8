//! Block offset scanning: classify every element of one fixed-width window
//! against the pivot and record the in-window offsets of those the selector
//! matched, upward for windows anchored at the low end of the sequence and
//! downward for windows anchored at the high end.

use vstd::prelude::*;
use crate::BLOCK_PARTITION_BLOCK_SIZE;
use crate::callable_on_all;
use crate::judged;

verus! {

/// True when offset `o` occurs in the recorded list `offs`.
pub open spec fn offset_among(offs: Seq<u8>, o: int) -> bool {
    exists|i: int| 0 <= i < offs.len() && offs[i] == o
}

/// What both scan directions establish: every recorded offset lies in the
/// window and was judged `want`; every window offset not recorded was judged
/// the other way.  Each element of the window is judged exactly once.
pub open spec fn scanned_window<T, F: Fn(&T, &T) -> bool>(
    less: F,
    s: Seq<T>,
    base: int,
    pivot: T,
    want: bool,
    offs: Seq<u8>,
) -> bool {
    &&& offs.len() <= BLOCK_PARTITION_BLOCK_SIZE
    &&& forall|i: int|
        0 <= i < offs.len() ==> ((#[trigger] offs[i]) as int) < BLOCK_PARTITION_BLOCK_SIZE
    &&& forall|i: int|
        0 <= i < offs.len() ==> #[trigger] judged(less, s[base + offs[i] as int], pivot, want)
    &&& forall|o: int|
        #![trigger offset_among(offs, o)]
        0 <= o < BLOCK_PARTITION_BLOCK_SIZE && !offset_among(offs, o) ==> judged(
            less,
            s[base + o],
            pivot,
            !want,
        )
}

/// Scan the window `v[base .. base + BLOCK_PARTITION_BLOCK_SIZE)` upward and
/// leave in `offsets` the rising list of in-window offsets of the elements
/// the predicate judged `want` against the pivot.
pub fn fill_offset_block_up<T, F: Fn(&T, &T) -> bool>(
    v: &Vec<T>,
    base: usize,
    pivot: &T,
    less: &F,
    want: bool,
    offsets: &mut Vec<u8>,
)
    requires
        base + BLOCK_PARTITION_BLOCK_SIZE <= v@.len(),
        callable_on_all(*less),
    ensures
        forall|i: int, j: int|
            0 <= i < j < final(offsets)@.len() ==> final(offsets)@[i] < final(offsets)@[j],
        scanned_window(*less, v@, base as int, *pivot, want, final(offsets)@),
{
    // Pins the sequence's length to a machine word for the index arithmetic.
    let _len: usize = v.len();
    offsets.clear();
    let mut o: usize = 0;
    while o < BLOCK_PARTITION_BLOCK_SIZE
        invariant
            o <= BLOCK_PARTITION_BLOCK_SIZE,
            base + BLOCK_PARTITION_BLOCK_SIZE <= v@.len(),
            v@.len() <= usize::MAX,
            callable_on_all(*less),
            offsets@.len() <= o,
            forall|i: int, j: int| 0 <= i < j < offsets@.len() ==> offsets@[i] < offsets@[j],
            forall|i: int| 0 <= i < offsets@.len() ==> ((#[trigger] offsets@[i]) as int) < o,
            forall|i: int|
                0 <= i < offsets@.len() ==> #[trigger] judged(
                    *less,
                    v@[base + offsets@[i] as int],
                    *pivot,
                    want,
                ),
            forall|p: int|
                #![trigger offset_among(offsets@, p)]
                0 <= p < o && !offset_among(offsets@, p) ==> judged(
                    *less,
                    v@[base + p],
                    *pivot,
                    !want,
                ),
        decreases BLOCK_PARTITION_BLOCK_SIZE - o,
    {
        let ghost pre = offsets@;
        let r = less(&v[base + o], pivot);
        if r == want {
            offsets.push(o as u8);
        }
        proof {
            if r == want {
                assert(offsets@[offsets@.len() - 1] == o as u8);
                assert forall|p: int| 0 <= p < o + 1 && !offset_among(offsets@, p) implies judged(
                    *less,
                    v@[base + p],
                    *pivot,
                    !want,
                ) by {
                    assert(!offset_among(pre, p)) by {
                        if offset_among(pre, p) {
                            let i = choose|i: int| 0 <= i < pre.len() && pre[i] == p;
                            assert(offsets@[i] == p);
                        }
                    }
                }
            } else {
                assert(!offset_among(offsets@, o as int));
            }
        }
        o = o + 1;
    }
}

/// Scan the window `v[base .. base + BLOCK_PARTITION_BLOCK_SIZE)` downward,
/// from its high end toward its low end, and leave in `offsets` the falling
/// list of in-window offsets of the elements the predicate judged `want`
/// against the pivot.
pub fn fill_offset_block_down<T, F: Fn(&T, &T) -> bool>(
    v: &Vec<T>,
    base: usize,
    pivot: &T,
    less: &F,
    want: bool,
    offsets: &mut Vec<u8>,
)
    requires
        base + BLOCK_PARTITION_BLOCK_SIZE <= v@.len(),
        callable_on_all(*less),
    ensures
        forall|i: int, j: int|
            0 <= i < j < final(offsets)@.len() ==> final(offsets)@[i] > final(offsets)@[j],
        scanned_window(*less, v@, base as int, *pivot, want, final(offsets)@),
{
    // Pins the sequence's length to a machine word for the index arithmetic.
    let _len: usize = v.len();
    offsets.clear();
    let mut o: usize = BLOCK_PARTITION_BLOCK_SIZE;
    while o > 0
        invariant
            o <= BLOCK_PARTITION_BLOCK_SIZE,
            base + BLOCK_PARTITION_BLOCK_SIZE <= v@.len(),
            v@.len() <= usize::MAX,
            callable_on_all(*less),
            offsets@.len() + o <= BLOCK_PARTITION_BLOCK_SIZE,
            forall|i: int, j: int| 0 <= i < j < offsets@.len() ==> offsets@[i] > offsets@[j],
            forall|i: int|
                0 <= i < offsets@.len() ==> o <= ((#[trigger] offsets@[i]) as int)
                    < BLOCK_PARTITION_BLOCK_SIZE,
            forall|i: int|
                0 <= i < offsets@.len() ==> #[trigger] judged(
                    *less,
                    v@[base + offsets@[i] as int],
                    *pivot,
                    want,
                ),
            forall|p: int|
                #![trigger offset_among(offsets@, p)]
                o <= p < BLOCK_PARTITION_BLOCK_SIZE && !offset_among(offsets@, p) ==> judged(
                    *less,
                    v@[base + p],
                    *pivot,
                    !want,
                ),
        decreases o,
    {
        let ghost pre = offsets@;
        o = o - 1;
        let r = less(&v[base + o], pivot);
        if r == want {
            offsets.push(o as u8);
        }
        proof {
            if r == want {
                assert(offsets@[offsets@.len() - 1] == o as u8);
                assert forall|p: int| o <= p < BLOCK_PARTITION_BLOCK_SIZE && !offset_among(
                    offsets@,
                    p,
                ) implies judged(*less, v@[base + p], *pivot, !want) by {
                    assert(!offset_among(pre, p)) by {
                        if offset_among(pre, p) {
                            let i = choose|i: int| 0 <= i < pre.len() && pre[i] == p;
                            assert(offsets@[i] == p);
                        }
                    }
                }
            } else {
                assert(!offset_among(offsets@, o as int));
            }
        }
    }
}

} // verus!
