//! Input records: what the collaborators that read the data hand to the
//! core.
//!
//! A location record gives a unique identifier and zero or more service
//! category labels; a connection record gives two location identifiers and
//! a nonnegative travel cost.  Costs are unsigned integers in whatever
//! unit the caller keeps them in; the threshold is in the same unit.

use vstd::prelude::*;

verus! {

/// One location: its identifier and its service-category labels — a
/// location may carry none, one, or several.
#[derive(Debug, Clone)]
pub struct Node {
    pub id: u64,
    pub labels: Vec<String>,
}

/// One undirected connection between two locations, with its travel cost.
#[derive(Debug, Clone, Copy, PartialEq, Eq, Structural)]
pub struct Edge {
    pub source: u64,
    pub target: u64,
    pub weight: u64,
}

/// Whether some label of a location record's list reads `cat`.
pub open spec fn label_matches(labels: Seq<String>, cat: Seq<char>) -> bool {
    exists|k: int| 0 <= k < labels.len() && (#[trigger] labels[k])@ == cat
}

/// Whether some record of `recs` carries the identifier `x`.
pub open spec fn has_record_id(recs: Seq<Node>, x: u64) -> bool {
    exists|k: int| 0 <= k < recs.len() && (#[trigger] recs[k]).id == x
}

/// The largest identifier among the records, or zero where there is none.
pub open spec fn max_record_id(recs: Seq<Node>) -> u64
    decreases recs.len(),
{
    if recs.len() == 0 {
        0u64
    } else {
        let pre = max_record_id(recs.drop_last());
        if recs.last().id > pre {
            recs.last().id
        } else {
            pre
        }
    }
}

/// Every identifier of the records is bounded by `max_record_id`.
pub proof fn lemma_max_record_id(recs: Seq<Node>)
    ensures
        forall|k: int| 0 <= k < recs.len() ==> (#[trigger] recs[k]).id <= max_record_id(recs),
    decreases recs.len(),
{
    if recs.len() > 0 {
        lemma_max_record_id(recs.drop_last());
        assert forall|k: int| 0 <= k < recs.len() implies (#[trigger] recs[k]).id <= max_record_id(
            recs,
        ) by {
            if k < recs.len() - 1 {
                assert(recs.drop_last()[k] == recs[k]);
            }
        }
    }
}

/// The largest identifier among the records, or zero where there is none.
pub fn max_id(records: &Vec<Node>) -> (r: u64)
    ensures
        r == max_record_id(records@),
{
    let mut r: u64 = 0;
    let mut k: usize = 0;
    while k < records.len()
        invariant
            0 <= k <= records@.len(),
            r == max_record_id(records@.subrange(0, k as int)),
        decreases records@.len() - k,
    {
        proof {
            assert(records@.subrange(0, k + 1).drop_last() =~= records@.subrange(0, k as int));
            assert(records@.subrange(0, k + 1).last() == records@[k as int]);
        }
        if records[k].id > r {
            r = records[k].id;
        }
        k = k + 1;
    }
    proof {
        assert(records@.subrange(0, records@.len() as int) =~= records@);
    }
    r
}

} // verus!
