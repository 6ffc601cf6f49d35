//! The priority queue of the search: a pairing heap from the `pheap`
//! crate, holding `(location, tentative distance)` entries keyed by the
//! distance.
//!
//! Its contents are named by the spec function `heap_entries`, a multiset
//! because the search may queue a location several times; trusted wrappers
//! around the three `pheap` methods the search calls state what each does
//! to that multiset.  No order among entries of equal priority is claimed.

use vstd::prelude::*;
use pheap::PairingHeap;
use vstd::multiset::Multiset;

verus! {

#[verifier::external_type_specification]
#[verifier::external_body]
#[verifier::reject_recursive_types(K)]
#[verifier::reject_recursive_types(P)]
pub struct ExPairingHeap<K, P>(pheap::PairingHeap<K, P>);

/// The entries a pairing heap holds: pairs of a location and the priority
/// it was queued with.
pub uninterp spec fn heap_entries(h: PairingHeap<u64, u64>) -> Multiset<(u64, u64)>;

/// The contents of a heap that holds nothing.
pub open spec fn no_entries() -> Multiset<(u64, u64)> {
    Multiset::empty()
}

/// Relies on pheap's `PairingHeap::new`: an empty heap.
#[verifier::external_body]
pub(crate) fn heap_new() -> (r: PairingHeap<u64, u64>)
    ensures
        heap_entries(r) == no_entries(),
{
    PairingHeap::new()
}

/// Relies on pheap's `PairingHeap::insert`: adds one entry and touches no
/// other.
#[verifier::external_body]
pub(crate) fn heap_insert(h: &mut PairingHeap<u64, u64>, key: u64, prio: u64)
    ensures
        heap_entries(*final(h)) == heap_entries(*old(h)).insert((key, prio)),
{
    h.insert(key, prio);
}

/// Relies on pheap's `PairingHeap::delete_min`: removes and returns an
/// entry of least priority, or reports the heap empty.  Which entry of
/// equal least priority leaves is not promised.
#[verifier::external_body]
pub(crate) fn heap_delete_min(h: &mut PairingHeap<u64, u64>) -> (r: Option<(u64, u64)>)
    ensures
        match r {
            None => heap_entries(*old(h)) == no_entries() && *final(h) == *old(h),
            Some(entry) => {
                &&& heap_entries(*old(h)).count(entry) > 0
                &&& heap_entries(*final(h)) == heap_entries(*old(h)).remove(entry)
                &&& forall|other: (u64, u64)|
                    #[trigger] heap_entries(*old(h)).count(other) > 0 ==> entry.1 <= other.1
            },
        },
{
    h.delete_min()
}

} // verus!
