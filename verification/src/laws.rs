//! Laws of the t-minute city computation, stated and proved over the same
//! spec functions that the executable functions' contracts use.

use vstd::prelude::*;
use crate::city::{category_reach, city_filter, in_min_city, lemma_city_filter_membership};
use crate::labels::LabelIndex;
use crate::paths::{
    has_edge, is_path, lemma_costed_path_trivial, lemma_costed_to_reach, lemma_path_cost_nonneg,
    lemma_reach_monotone, path_cost, reach_within,
};

verus! {

/// A location of the result set has, for every category, some member of
/// that category within shortest-path distance of the threshold.
pub proof fn lemma_city_reaches_every_category(
    e: Map<(u64, u64), u64>,
    li: LabelIndex,
    tt: int,
    ids: Seq<u64>,
    v: u64,
    i: int,
)
    requires
        city_filter(e, li, tt, ids).contains(v),
        0 <= i < li.p(),
    ensures
        category_reach(e, li, i, v, tt),
{
    lemma_city_filter_membership(e, li, tt, ids);
    assert(in_min_city(e, li, tt, v));
}

/// Raising the threshold never loses a member of the t-minute city.
pub proof fn lemma_threshold_monotone(
    e: Map<(u64, u64), u64>,
    li: LabelIndex,
    v: u64,
    t1: int,
    t2: int,
)
    requires
        t1 <= t2,
        in_min_city(e, li, t1, v),
    ensures
        in_min_city(e, li, t2, v),
{
    assert forall|i: int| 0 <= i < li.p() implies #[trigger] category_reach(e, li, i, v, t2) by {
        assert(category_reach(e, li, i, v, t1));
        let m = choose|m: u64| #[trigger]
            li.members_at(i).contains(m) && reach_within(e, m, v, t1);
        lemma_reach_monotone(e, m, v, t1, t2);
    }
}

/// Raising the threshold can only add locations to the result set, never
/// remove any.
pub proof fn lemma_city_monotone(
    e: Map<(u64, u64), u64>,
    li: LabelIndex,
    ids: Seq<u64>,
    t1: int,
    t2: int,
)
    requires
        t1 <= t2,
    ensures
        forall|v: u64| #[trigger]
            city_filter(e, li, t1, ids).contains(v) ==> city_filter(e, li, t2, ids).contains(v),
{
    lemma_city_filter_membership(e, li, t1, ids);
    lemma_city_filter_membership(e, li, t2, ids);
    assert forall|v: u64| #[trigger]
        city_filter(e, li, t1, ids).contains(v) implies city_filter(e, li, t2, ids).contains(
        v,
    ) by {
        lemma_threshold_monotone(e, li, v, t1, t2);
    }
}

/// Every edge costs at least one unit.
pub open spec fn positive_weights(e: Map<(u64, u64), u64>) -> bool {
    forall|a: u64, b: u64| #[trigger] has_edge(e, a, b) ==> e[(a, b)] >= 1
}

/// Under positive weights a path of cost zero stands still.
proof fn lemma_zero_cost_single(e: Map<(u64, u64), u64>, p: Seq<u64>)
    requires
        positive_weights(e),
        is_path(e, p),
        path_cost(e, p) <= 0,
    ensures
        p.len() == 1,
{
    if p.len() >= 2 {
        assert(has_edge(e, p[0], p[1]));
        lemma_path_cost_nonneg(e, p.drop_first());
        assert(path_cost(e, p) == e[(p[0], p[1])] + path_cost(e, p.drop_first()));
        assert(false);
    }
}

/// At threshold zero, and with every edge costing at least one unit, the
/// t-minute city holds exactly the locations that are members of every
/// category: distance zero reaches nothing but the category members
/// themselves.
pub proof fn lemma_zero_threshold(e: Map<(u64, u64), u64>, li: LabelIndex, v: u64)
    requires
        positive_weights(e),
    ensures
        in_min_city(e, li, 0, v) <==> forall|i: int|
            0 <= i < li.p() ==> #[trigger] li.members_at(i).contains(v),
{
    if in_min_city(e, li, 0, v) {
        assert forall|i: int| 0 <= i < li.p() implies #[trigger] li.members_at(i).contains(
            v,
        ) by {
            assert(category_reach(e, li, i, v, 0));
            let m = choose|m: u64| #[trigger]
                li.members_at(i).contains(m) && reach_within(e, m, v, 0);
            let p = choose|p: Seq<u64>|
                #[trigger] is_path(e, p) && p.first() == m && p.last() == v && path_cost(e, p)
                    <= 0;
            lemma_zero_cost_single(e, p);
            assert(m == v);
        }
    }
    if forall|i: int| 0 <= i < li.p() ==> #[trigger] li.members_at(i).contains(v) {
        assert forall|i: int| 0 <= i < li.p() implies #[trigger] category_reach(e, li, i, v, 0) by {
            lemma_costed_path_trivial(e, v);
            lemma_costed_to_reach(e, v, v, 0, 0);
            assert(li.members_at(i).contains(v) && reach_within(e, v, v, 0));
        }
    }
}

/// At threshold zero with unit-or-heavier edges, the result set holds
/// exactly the loaded locations that carry every category.
pub proof fn lemma_zero_threshold_city(
    e: Map<(u64, u64), u64>,
    li: LabelIndex,
    ids: Seq<u64>,
    v: u64,
)
    requires
        positive_weights(e),
    ensures
        city_filter(e, li, 0, ids).contains(v) <==> ids.contains(v) && forall|i: int|
            0 <= i < li.p() ==> #[trigger] li.members_at(i).contains(v),
{
    lemma_city_filter_membership(e, li, 0, ids);
    lemma_zero_threshold(e, li, v);
}

/// Running the computation twice over an unmodified graph yields the same
/// result list: the orchestrator's contract pins the result to a function
/// of the graph model, the label index, the threshold and the load order,
/// and restores the graph, so a second run is given the same arguments.
pub proof fn lemma_idempotent(
    e: Map<(u64, u64), u64>,
    li: LabelIndex,
    tt: int,
    ids: Seq<u64>,
    r1: Seq<u64>,
    r2: Seq<u64>,
)
    requires
        r1 == city_filter(e, li, tt, ids),
        r2 == city_filter(e, li, tt, ids),
    ensures
        r1 == r2,
{
}

} // verus!
