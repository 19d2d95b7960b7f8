//! In-place partition of a sequence around a pivot, driven by a
//! caller-supplied ordering predicate.
//!
//! The entry points rearrange a vector so that the elements the predicate
//! judges "less than the pivot" form a prefix, and return that prefix's
//! length.  Large inputs go through a block partitioner that classifies
//! fixed-width windows from both ends and exchanges misplaced elements along
//! cycles; the bounded residual range in the middle, and any short input, is
//! finished by one of two small-range strategies.
//!
//! The predicate is an arbitrary `Fn(&T, &T) -> bool` and nothing forces it to
//! be an order, or even a function of its arguments: every contract therefore
//! speaks of the judgments actually made, through `call_ensures`.  When the
//! predicate does compute a fixed relation, the laws in [`laws`] turn those
//! contracts into the familiar partition statement.

use vstd::prelude::*;

pub mod engine;
pub mod scan;
pub mod small;
pub mod block;
pub mod laws;

verus! {

/// Upper bound (exclusive) on the length of a range the small-range
/// strategies accept; ranges at least this long must first go through the
/// block partitioner.  At least twice the block width.
pub const MAX_SMALL_PARTITION_LEN: usize = 256;

/// Width of the fixed windows the block partitioner classifies as a unit.
pub const BLOCK_PARTITION_BLOCK_SIZE: usize = 32;

/// The predicate `less`, asked whether `x` is less than `pivot`, may answer
/// `r`: this is the one observation a caller can rely on, since the predicate
/// is free to have effects and need not answer the same way twice.
pub open spec fn judged<T, F: Fn(&T, &T) -> bool>(less: F, x: T, pivot: T, r: bool) -> bool {
    call_ensures(less, (&x, &pivot), r)
}

/// The predicate may be called on any pair of values.
pub open spec fn callable_on_all<T, F: Fn(&T, &T) -> bool>(less: F) -> bool {
    forall|a: &T, b: &T| #[trigger] call_requires(less, (a, b))
}

/// `s[lo..mid)` was judged below the pivot and `s[mid..hi)` was judged not
/// below it.
pub open spec fn partitioned_between<T, F: Fn(&T, &T) -> bool>(
    less: F,
    s: Seq<T>,
    pivot: T,
    lo: int,
    mid: int,
    hi: int,
) -> bool {
    &&& forall|i: int| lo <= i < mid ==> #[trigger] judged(less, s[i], pivot, true)
    &&& forall|i: int| mid <= i < hi ==> #[trigger] judged(less, s[i], pivot, false)
}

/// Partition `v` in place around `pivot`: on return the elements judged less
/// than the pivot stand in `v[0..n)` and the others in `v[n..]`, and `v` holds
/// exactly the multiset of elements it held before.
///
/// Ranges of at least [`MAX_SMALL_PARTITION_LEN`] elements are first narrowed
/// by the block partitioner; the residual, like any shorter input, is
/// finished by the minimal-move small-range strategy, which never copies an
/// element and so serves every element type.
///
/// The pivot cannot alias the sequence: `v` is borrowed exclusively for the
/// duration of the call.
pub fn partition<T, F: Fn(&T, &T) -> bool>(v: &mut Vec<T>, pivot: &T, less: &F) -> (n: usize)
    requires
        callable_on_all(*less),
    ensures
        final(v)@.len() == old(v)@.len(),
        final(v)@.to_multiset() == old(v)@.to_multiset(),
        n <= final(v)@.len(),
        partitioned_between(*less, final(v)@, *pivot, 0, n as int, final(v)@.len() as int),
{
    let (lo, hi) = block::block_partition(v, pivot, less);
    let ghost mid = v@;
    let n_small = small::small_partition_move_opt(v, lo, hi, pivot, less);
    proof {
        engine::lemma_patch_multiset(mid, v@, lo as int, hi as int);
    }
    lo + n_small
}

/// [`partition`] for plain-data element types: the same contract, with the
/// residual range finished by the scratch-copy small-range strategy, which
/// copies elements freely and writes nothing back into `v` until every
/// comparison of its range has been made.
pub fn partition_plain_data<T: Copy, F: Fn(&T, &T) -> bool>(
    v: &mut Vec<T>,
    pivot: &T,
    less: &F,
) -> (n: usize)
    requires
        callable_on_all(*less),
    ensures
        final(v)@.len() == old(v)@.len(),
        final(v)@.to_multiset() == old(v)@.to_multiset(),
        n <= final(v)@.len(),
        partitioned_between(*less, final(v)@, *pivot, 0, n as int, final(v)@.len() as int),
{
    let (lo, hi) = block::block_partition(v, pivot, less);
    let ghost mid = v@;
    let n_small = small::small_partition_int_opt(v, lo, hi, pivot, less);
    proof {
        engine::lemma_patch_multiset(mid, v@, lo as int, hi as int);
    }
    lo + n_small
}

} // verus!
