//! The order in which the points enter the mesh: by their distance from the
//! centre of the seed triangle's circle.

use vstd::prelude::*;

verus! {

/// Sorts the entries by their second part, the smallest first.
///
/// Calls `sort_unstable_by_key` of the standard library on the slice of the
/// vector, with the second part of an entry as its key. The contract claims
/// what the documentation of that method says: the vector holds the same
/// entries afterwards, in non-decreasing order of their keys. Entries with
/// equal keys may come in any order.
#[verifier::external_body]
fn sort_by_distance(entries: &mut Vec<(usize, u64)>)
    ensures
        final(entries)@.to_multiset() == old(entries)@.to_multiset(),
        forall|a: int, b: int|
            0 <= a < b < final(entries)@.len() ==> final(entries)@[a].1 <= final(entries)@[b].1,
{
    entries.sort_unstable_by_key(|entry| entry.1);
}

/// `order` names each of the points `0..dists.len()` once, a point with a
/// smaller distance before a point with a larger one.
pub open spec fn is_radial_order(dists: Seq<u64>, order: Seq<usize>) -> bool {
    &&& order.len() == dists.len()
    &&& order.no_duplicates()
    &&& forall|k: int| 0 <= k < order.len() ==> (#[trigger] order[k]) < dists.len()
    &&& forall|a: int, b: int|
        0 <= a < b < order.len() ==> dists[order[a] as int] <= dists[order[b] as int]
}

/// The points in the order of their distances, the nearest first.
pub fn radial_order(dists: &Vec<u64>) -> (order: Vec<usize>)
    ensures
        is_radial_order(dists@, order@),
{
    let n = dists.len();
    let mut entries: Vec<(usize, u64)> = Vec::with_capacity(n);
    let mut i: usize = 0;
    while i < n
        invariant
            n == dists@.len(),
            0 <= i <= n,
            entries@.len() == i,
            forall|k: int| 0 <= k < i ==> #[trigger] entries@[k] == (k as usize, dists@[k]),
        decreases n - i,
    {
        entries.push((i, dists[i]));
        i = i + 1;
    }
    let ghost unsorted = entries@;
    sort_by_distance(&mut entries);
    proof {
        assert(unsorted.no_duplicates());
        unsorted.lemma_multiset_has_no_duplicates();
        entries@.lemma_multiset_has_no_duplicates_conv();
        vstd::seq_lib::to_multiset_len(unsorted);
        vstd::seq_lib::to_multiset_len(entries@);
        assert forall|k: int| 0 <= k < n implies (#[trigger] entries@[k]).0 < n && entries@[k].1
            == dists@[entries@[k].0 as int] by {
            assert(entries@.contains(entries@[k]));
            vstd::seq_lib::to_multiset_contains(entries@, entries@[k]);
            vstd::seq_lib::to_multiset_contains(unsorted, entries@[k]);
            assert(unsorted.contains(entries@[k]));
        }
    }
    let mut order: Vec<usize> = Vec::with_capacity(n);
    let mut k: usize = 0;
    while k < n
        invariant
            n == dists@.len(),
            entries@.len() == n,
            0 <= k <= n,
            order@.len() == k,
            forall|j: int| 0 <= j < k ==> #[trigger] order@[j] == entries@[j].0,
        decreases n - k,
    {
        order.push(entries[k].0);
        k = k + 1;
    }
    proof {
        assert forall|a: int, b: int| 0 <= a < n && 0 <= b < n && a != b implies order@[a]
            != order@[b] by {
            assert(entries@[a] != entries@[b]);
        }
    }
    order
}

} // verus!
