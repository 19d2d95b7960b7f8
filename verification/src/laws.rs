//! What the partition contracts add up to when the predicate computes a
//! fixed relation: the familiar partition statement, and the uniqueness of
//! the partition point, from which re-running a partition is known to return
//! the same count.

use vstd::prelude::*;
use vstd::multiset::Multiset;
use crate::judged;
use crate::partitioned_between;

verus! {

broadcast use vstd::seq_lib::group_to_multiset_ensures;

/// The predicate `less` computes the relation `lt`: any answer it may give
/// equals `lt` on the argument values.  A predicate whose answers depend on
/// anything but its arguments computes no relation.
pub open spec fn computes<T, F: Fn(&T, &T) -> bool>(less: F, lt: spec_fn(T, T) -> bool) -> bool {
    forall|a: &T, b: &T, r: bool| #[trigger] call_ensures(less, (a, b), r) ==> r == lt(*a, *b)
}

/// `s[0..k)` is exactly the part of `s` below `pivot` under the relation
/// `lt`.
pub open spec fn split_at<T>(s: Seq<T>, pivot: T, lt: spec_fn(T, T) -> bool, k: int) -> bool {
    &&& 0 <= k <= s.len()
    &&& forall|i: int| 0 <= i < k ==> lt(#[trigger] s[i], pivot)
    &&& forall|i: int| k <= i < s.len() ==> !lt(#[trigger] s[i], pivot)
}

/// Partition correctness under an order: when the predicate computes the
/// relation `lt`, the judgment-level contract of a partition — everything
/// before `k` judged below the pivot, everything from `k` on judged not
/// below — is the relation-level partition statement itself.
pub proof fn lemma_partitioned_under_order<T, F: Fn(&T, &T) -> bool>(
    less: F,
    lt: spec_fn(T, T) -> bool,
    s: Seq<T>,
    pivot: T,
    k: int,
)
    requires
        computes(less, lt),
        0 <= k <= s.len(),
        partitioned_between(less, s, pivot, 0, k, s.len() as int),
    ensures
        split_at(s, pivot, lt, k),
{
    assert forall|i: int| 0 <= i < k implies lt(#[trigger] s[i], pivot) by {
        assert(judged(less, s[i], pivot, true));
    }
    assert forall|i: int| k <= i < s.len() implies !lt(#[trigger] s[i], pivot) by {
        assert(judged(less, s[i], pivot, false));
    }
}

/// Inserting an element into a multiset grows the part a property selects by
/// one when the element has the property, and not at all otherwise.
proof fn lemma_filter_insert_len<T>(m: Multiset<T>, p: spec_fn(T) -> bool, x: T)
    ensures
        m.insert(x).filter(p).len() == m.filter(p).len() + (if p(x) {
            1int
        } else {
            0int
        }),
{
    broadcast use vstd::multiset::group_multiset_axioms;

    if p(x) {
        assert(m.insert(x).filter(p) =~= m.filter(p).insert(x));
    } else {
        assert(m.insert(x).filter(p) =~= m.filter(p));
    }
}

/// A sequence split at `k` holds exactly `k` elements below the pivot: the
/// returned count of a partition is the number of elements the relation puts
/// below the pivot, read off the multiset alone.
pub proof fn lemma_split_count<T>(s: Seq<T>, pivot: T, lt: spec_fn(T, T) -> bool, k: int)
    requires
        split_at(s, pivot, lt, k),
    ensures
        s.to_multiset().filter(|x: T| lt(x, pivot)).len() == k,
    decreases s.len(),
{
    broadcast use vstd::multiset::group_multiset_axioms;

    let p = |x: T| lt(x, pivot);
    if s.len() == 0 {
        assert(s.to_multiset().filter(p) =~= Multiset::<T>::empty());
    } else {
        let s0 = s.drop_last();
        let x = s.last();
        assert(s =~= s0.push(x));
        if k == s.len() {
            lemma_split_count(s0, pivot, lt, k - 1);
        } else {
            lemma_split_count(s0, pivot, lt, k);
        }
        lemma_filter_insert_len(s0.to_multiset(), p, x);
    }
}

/// Uniqueness of the partition point: two sequences holding the same
/// multiset and each split around the same pivot under the same relation are
/// split at the same point.  In particular, partitioning a permutation of an
/// already partitioned sequence — re-running a partition on its own output —
/// returns the same count.
pub proof fn lemma_partition_point_unique<T>(
    s1: Seq<T>,
    s2: Seq<T>,
    pivot: T,
    lt: spec_fn(T, T) -> bool,
    k1: int,
    k2: int,
)
    requires
        s1.to_multiset() == s2.to_multiset(),
        split_at(s1, pivot, lt, k1),
        split_at(s2, pivot, lt, k2),
    ensures
        k1 == k2,
{
    lemma_split_count(s1, pivot, lt, k1);
    lemma_split_count(s2, pivot, lt, k2);
}

} // verus!
