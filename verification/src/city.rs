//! The orchestrator: building the location graph from the input records
//! and driving the per-category searches to the t-minute city.
//!
//! For each service category the orchestrator inserts one virtual source
//! node — numbered past the largest real identifier — joined by
//! zero-weight edges to every member of the category, runs the threshold
//! search from it into that category's reach-vector column, and removes
//! the virtual source again, restoring the graph exactly.  After all
//! categories the result set is read off the accumulator: the locations
//! whose every column is set.

use vstd::prelude::*;
use std::collections::HashMap;
use crate::accumulator::Accumulator;
use crate::errors::BuildError;
use crate::graph::GraphStore;
use crate::labels::{distinct_labels, ids_with_label, lemma_members_are_record_ids, LabelIndex};
use crate::overlay::{
    avoids, lemma_overlaid_add_member, lemma_overlaid_empty, lemma_overlaid_remove,
    lemma_overlay_reach, overlaid,
};
use crate::paths::{has_edge, reach_within};
use crate::records::{has_record_id, Edge, Node};
use crate::search::dijkstra;

verus! {

/// The set of identifiers the location records declare.
pub open spec fn record_id_set(recs: Seq<Node>) -> Set<u64> {
    Set::new(|x: u64| has_record_id(recs, x))
}

/// The symmetric adjacency the connection records describe: each
/// connection in both directions, later records replacing earlier ones.
pub open spec fn edges_model(es: Seq<Edge>) -> Map<(u64, u64), u64>
    decreases es.len(),
{
    if es.len() == 0 {
        Map::empty()
    } else {
        edges_model(es.drop_last()).insert(
            (es.last().source, es.last().target),
            es.last().weight,
        ).insert((es.last().target, es.last().source), es.last().weight)
    }
}

/// Every connection names two declared locations.
pub open spec fn edges_known(recs: Seq<Node>, es: Seq<Edge>) -> bool {
    forall|j: int| 0 <= j < es.len() ==> has_record_id(recs, (#[trigger] es[j]).source)
        && has_record_id(recs, es[j].target)
}

/// Build the graph store from the records: every declared location becomes
/// a node, every connection an undirected weighted edge.  A connection
/// naming an undeclared location is rejected — the first such connection
/// decides the error — and no graph is returned.
pub fn create_graph(records: &Vec<Node>, edges: &Vec<Edge>) -> (r: Result<GraphStore, BuildError>)
    ensures
        r is Ok <==> edges_known(records@, edges@),
        r matches Ok(g) ==> g.wf() && g.nodes() == record_id_set(records@) && g.adj()
            == edges_model(edges@),
        r matches Err(er) ==> exists|j: int|
            0 <= j < edges@.len() && ((!has_record_id(records@, (#[trigger] edges@[j]).source)
                && er == BuildError::UnknownLocation(edges@[j].source)) || (has_record_id(
                records@,
                edges@[j].source,
            ) && !has_record_id(records@, edges@[j].target) && er == BuildError::UnknownLocation(
                edges@[j].target,
            ))),
{
    let mut g = GraphStore::new();
    let mut k: usize = 0;
    while k < records.len()
        invariant
            0 <= k <= records@.len(),
            g.wf(),
            g.adj() == crate::graph::no_edges(),
            g.nodes() == record_id_set(records@.subrange(0, k as int)),
        decreases records@.len() - k,
    {
        let ghost pre = records@.subrange(0, k as int);
        let ghost now = records@.subrange(0, k + 1);
        g.add_node(records[k].id);
        proof {
            assert forall|x: u64|
                record_id_set(now).contains(x) <==> record_id_set(pre).insert(
                    records@[k as int].id,
                ).contains(x) by {
                if has_record_id(now, x) {
                    let i = choose|i: int| 0 <= i < now.len() && (#[trigger] now[i]).id == x;
                    if i < k {
                        assert(pre[i] == now[i]);
                        assert(has_record_id(pre, x));
                    } else {
                        assert(now[i] == records@[k as int]);
                    }
                }
                if has_record_id(pre, x) {
                    let i = choose|i: int| 0 <= i < pre.len() && (#[trigger] pre[i]).id == x;
                    assert(now[i] == pre[i]);
                    assert(has_record_id(now, x));
                }
                if x == records@[k as int].id {
                    assert(now[k as int].id == x);
                    assert(has_record_id(now, x));
                }
            }
            assert(record_id_set(now) =~= record_id_set(pre).insert(records@[k as int].id));
        }
        k = k + 1;
    }
    proof {
        assert(records@.subrange(0, records@.len() as int) =~= records@);
    }
    let mut j: usize = 0;
    while j < edges.len()
        invariant
            0 <= j <= edges@.len(),
            g.wf(),
            g.nodes() == record_id_set(records@),
            g.adj() == edges_model(edges@.subrange(0, j as int)),
            forall|k2: int| 0 <= k2 < j ==> has_record_id(records@, (#[trigger] edges@[k2]).source)
                && has_record_id(records@, edges@[k2].target),
        decreases edges@.len() - j,
    {
        let ghost pre = edges@.subrange(0, j as int);
        let ghost now = edges@.subrange(0, j + 1);
        proof {
            assert(now.drop_last() =~= pre);
            assert(now.last() == edges@[j as int]);
        }
        let a = edges[j].source;
        let b = edges[j].target;
        let w = edges[j].weight;
        match g.add_edge(a, b, w) {
            Ok(_) => {
                proof {
                    assert(g.adj() =~= edges_model(now));
                }
            },
            Err(er) => {
                proof {
                    assert(g.nodes().contains(a) <==> has_record_id(records@, a));
                    assert(g.nodes().contains(b) <==> has_record_id(records@, b));
                    assert(0 <= j < edges@.len() && ((!has_record_id(
                        records@,
                        (edges@[j as int]).source,
                    ) && er == BuildError::UnknownLocation(edges@[j as int].source)) || (
                    has_record_id(records@, edges@[j as int].source) && !has_record_id(
                        records@,
                        edges@[j as int].target,
                    ) && er == BuildError::UnknownLocation(edges@[j as int].target))));
                }
                return Err(er);
            },
        }
        j = j + 1;
    }
    proof {
        assert(edges@.subrange(0, edges@.len() as int) =~= edges@);
    }
    Ok(g)
}

/// Some member of the category of column `c` lies within `tt` of `v`.
pub open spec fn category_reach(e: Map<(u64, u64), u64>, li: LabelIndex, c: int, v: u64, tt: int) -> bool {
    exists|m: u64| #[trigger] li.members_at(c).contains(m) && reach_within(e, m, v, tt)
}

/// `v` lies within `tt` of at least one member of every category: the
/// defining property of the t-minute city.
pub open spec fn in_min_city(e: Map<(u64, u64), u64>, li: LabelIndex, tt: int, v: u64) -> bool {
    forall|i: int| 0 <= i < li.p() ==> #[trigger] category_reach(e, li, i, v, tt)
}

/// The locations of `ids`, in order, that lie in the t-minute city.
pub open spec fn city_filter(e: Map<(u64, u64), u64>, li: LabelIndex, tt: int, ids: Seq<u64>) -> Seq<
    u64,
>
    decreases ids.len(),
{
    if ids.len() == 0 {
        Seq::empty()
    } else {
        let pre = city_filter(e, li, tt, ids.drop_last());
        if in_min_city(e, li, tt, ids.last()) {
            pre.push(ids.last())
        } else {
            pre
        }
    }
}

/// A location stands in the filtered list exactly when it stands in `ids`
/// and in the t-minute city.
pub proof fn lemma_city_filter_membership(
    e: Map<(u64, u64), u64>,
    li: LabelIndex,
    tt: int,
    ids: Seq<u64>,
)
    ensures
        forall|v: u64| #[trigger]
            city_filter(e, li, tt, ids).contains(v) <==> ids.contains(v) && in_min_city(
                e,
                li,
                tt,
                v,
            ),
    decreases ids.len(),
{
    if ids.len() > 0 {
        lemma_city_filter_membership(e, li, tt, ids.drop_last());
        let pre = city_filter(e, li, tt, ids.drop_last());
        let all = city_filter(e, li, tt, ids);
        let last = ids.last();
        assert forall|v: u64| #[trigger]
            all.contains(v) <==> ids.contains(v) && in_min_city(e, li, tt, v) by {
            if all.contains(v) {
                let i = choose|i: int| 0 <= i < all.len() && all[i] == v;
                if in_min_city(e, li, tt, last) && i == all.len() - 1 {
                    assert(v == last);
                    assert(ids[ids.len() - 1] == v);
                } else {
                    assert(pre[i] == v);
                    assert(pre.contains(v));
                    let k = choose|k: int| 0 <= k < ids.drop_last().len() && ids.drop_last()[k]
                        == v;
                    assert(ids[k] == v);
                }
            }
            if ids.contains(v) && in_min_city(e, li, tt, v) {
                let k = choose|k: int| 0 <= k < ids.len() && ids[k] == v;
                if k < ids.len() - 1 {
                    assert(ids.drop_last()[k] == v);
                    assert(ids.drop_last().contains(v));
                    assert(pre.contains(v));
                    let i = choose|i: int| 0 <= i < pre.len() && pre[i] == v;
                    if in_min_city(e, li, tt, last) {
                        assert(all[i] == pre[i]);
                    }
                    assert(all.contains(v));
                } else {
                    assert(v == last);
                    assert(all.last() == v);
                }
            }
        }
    }
}

/// The fully marked prefix of the accumulator is the city filter of the
/// same identifiers, once each column records exactly the reachability of
/// its category.
proof fn lemma_prefix_filter_agree(
    acc: Accumulator,
    e: Map<(u64, u64), u64>,
    li: LabelIndex,
    tt: int,
    n: int,
)
    requires
        0 <= n <= acc.ids_seq().len(),
        acc.width_spec() == li.p(),
        forall|v: u64, c: int|
            0 <= c < li.p() ==> ((#[trigger] acc.reached(v, c)) <==> acc.ids_seq().contains(v)
                && category_reach(e, li, c, v, tt)),
    ensures
        acc.full_prefix(n) == city_filter(e, li, tt, acc.ids_seq().subrange(0, n)),
    decreases n,
{
    if n > 0 {
        lemma_prefix_filter_agree(acc, e, li, tt, n - 1);
        let sub = acc.ids_seq().subrange(0, n);
        assert(sub.drop_last() =~= acc.ids_seq().subrange(0, n - 1));
        let v = acc.ids_seq()[n - 1];
        assert(sub.last() == v);
        assert(acc.ids_seq().contains(v));
        assert(acc.all_marked(v) <==> in_min_city(e, li, tt, v)) by {
            if acc.all_marked(v) {
                assert forall|i: int| 0 <= i < li.p() implies #[trigger] category_reach(
                    e,
                    li,
                    i,
                    v,
                    tt,
                ) by {
                    assert(acc.reached(v, i));
                }
            }
            if in_min_city(e, li, tt, v) {
                assert forall|c: int| 0 <= c < acc.width_spec() implies #[trigger] acc.reached(
                    v,
                    c,
                ) by {
                    assert(0 <= c < li.p());
                    assert(category_reach(e, li, c, v, tt));
                }
            }
        }
    } else {
        assert(acc.ids_seq().subrange(0, 0) =~= Seq::<u64>::empty());
    }
}

/// Drive the per-category searches over the graph: for each category, in
/// column order, overlay a virtual source joined by zero-weight edges to
/// the category's members, search from it within the threshold, and
/// retract the overlay.  The graph comes back exactly as it was, and the
/// result lists, in load order, the locations within the threshold of at
/// least one member of every category.
pub fn compute_t_minute_city(
    g: &mut GraphStore,
    li: &LabelIndex,
    ids: &Vec<u64>,
    max_id: u64,
    threshold: u64,
) -> (r: Vec<u64>)
    requires
        old(g).wf(),
        li.wf(),
        forall|j: int, k: int|
            #![trigger ids@[j], ids@[k]]
            0 <= j < k < ids@.len() ==> ids@[j] != ids@[k],
        forall|j: int| 0 <= j < ids@.len() ==> old(g).nodes().contains(#[trigger] ids@[j]),
        forall|v: u64| #[trigger] old(g).nodes().contains(v) ==> ids@.contains(v),
        forall|v: u64| #[trigger] old(g).nodes().contains(v) ==> v <= max_id,
        forall|i: int, j: int|
            #![trigger li.members_at(i)[j]]
            0 <= i < li.p() && 0 <= j < li.members_at(i).len() ==> old(g).nodes().contains(
                li.members_at(i)[j],
            ),
        max_id + li.p() <= u64::MAX,
        ids@.len() * li.p() <= usize::MAX,
    ensures
        final(g).wf(),
        final(g).nodes() == old(g).nodes(),
        final(g).adj() == old(g).adj(),
        r@ == city_filter(old(g).adj(), *li, threshold as int, ids@),
{
    let ghost base_nodes = old(g).nodes();
    let ghost base_adj = old(g).adj();
    let ghost tt = threshold as int;
    let p = li.count();
    let mut acc = Accumulator::new(ids, p);
    let mut i: usize = 0;
    while i < p
        invariant
            g.wf(),
            g.nodes() == base_nodes,
            g.adj() == base_adj,
            li.wf(),
            p == li.p(),
            tt == threshold as int,
            forall|j: int, k: int|
                #![trigger ids@[j], ids@[k]]
                0 <= j < k < ids@.len() ==> ids@[j] != ids@[k],
            forall|j: int| 0 <= j < ids@.len() ==> base_nodes.contains(#[trigger] ids@[j]),
            forall|v: u64| #[trigger] base_nodes.contains(v) ==> ids@.contains(v),
            forall|v: u64| #[trigger] base_nodes.contains(v) ==> v <= max_id,
            forall|i2: int, j: int|
                #![trigger li.members_at(i2)[j]]
                0 <= i2 < li.p() && 0 <= j < li.members_at(i2).len() ==> base_nodes.contains(
                    li.members_at(i2)[j],
                ),
            max_id + li.p() <= u64::MAX,
            acc.wf(),
            acc.ids_seq() == ids@,
            acc.width_spec() == p as int,
            0 <= i <= p,
            forall|v: u64, c: int|
                0 <= c < i ==> ((#[trigger] acc.reached(v, c)) <==> ids@.contains(v)
                    && category_reach(base_adj, *li, c, v, tt)),
            forall|v: u64, c: int| i <= c < p ==> !(#[trigger] acc.reached(v, c)),
        decreases p - i,
    {
        let vs = max_id + (i as u64) + 1;
        proof {
            assert(!base_nodes.contains(vs));
            assert forall|a: u64, b: u64| #[trigger] has_edge(base_adj, a, b) implies a != vs && b
                != vs by {
                assert(base_nodes.contains(a) && base_nodes.contains(b));
            }
            assert(avoids(base_adj, vs));
        }
        g.add_node(vs);
        proof {
            lemma_overlaid_empty(base_adj, vs);
            assert(g.adj() =~= overlaid(
                base_adj,
                vs,
                Set::new(|m: u64| li.members_at(i as int).subrange(0, 0).contains(m)),
            )) by {
                assert(li.members_at(i as int).subrange(0, 0) =~= Seq::<u64>::empty());
                assert(Set::new(
                    |m: u64| li.members_at(i as int).subrange(0, 0).contains(m),
                ) =~= Set::<u64>::empty());
            }
        }
        let members = li.locations_for(i);
        let mut j: usize = 0;
        while j < members.len()
            invariant
                g.wf(),
                li.wf(),
                i < p,
                p == li.p(),
                members@ == li.members_at(i as int),
                0 <= j <= members@.len(),
                g.nodes() == base_nodes.insert(vs),
                g.adj() == overlaid(
                    base_adj,
                    vs,
                    Set::new(|m: u64| members@.subrange(0, j as int).contains(m)),
                ),
                avoids(base_adj, vs),
                !base_nodes.contains(vs),
                forall|j2: int| 0 <= j2 < members@.len() ==> base_nodes.contains(
                    #[trigger] members@[j2],
                ),
            decreases members@.len() - j,
        {
            let ghost msj = Set::new(|m: u64| members@.subrange(0, j as int).contains(m));
            let ghost msj1 = Set::new(|m: u64| members@.subrange(0, j + 1).contains(m));
            let m = members[j];
            proof {
                assert(base_nodes.contains(m));
                assert(m != vs);
                assert(g.nodes().contains(vs) && g.nodes().contains(m));
            }
            match g.add_edge(vs, m, 0) {
                Ok(_) => {
                    proof {
                        assert forall|x: u64| msj1.contains(x) <==> msj.insert(m).contains(x) by {
                            if members@.subrange(0, j + 1).contains(x) {
                                let k = choose|k: int|
                                    0 <= k < j + 1 && (#[trigger] members@.subrange(0, j + 1)[k])
                                        == x;
                                if k < j {
                                    assert(members@.subrange(0, j as int)[k] == x);
                                } else {
                                    assert(members@[j as int] == x);
                                }
                            }
                            if members@.subrange(0, j as int).contains(x) {
                                let k = choose|k: int|
                                    0 <= k < j && (#[trigger] members@.subrange(0, j as int)[k])
                                        == x;
                                assert(members@.subrange(0, j + 1)[k] == x);
                            }
                            if x == m {
                                assert(members@.subrange(0, j + 1)[j as int] == x);
                            }
                        }
                        assert(msj1 =~= msj.insert(m));
                        lemma_overlaid_add_member(base_adj, vs, msj, m);
                        assert(g.adj() =~= overlaid(base_adj, vs, msj1));
                    }
                },
                Err(_) => {
                    proof {
                        assert(false);
                    }
                },
            }
            j = j + 1;
        }
        let ghost msall = Set::new(|m: u64| li.members_at(i as int).contains(m));
        proof {
            assert(li.members_at(i as int).subrange(0, li.members_at(i as int).len() as int)
                =~= li.members_at(i as int));
            assert(Set::new(
                |m: u64|
                    li.members_at(i as int).subrange(
                        0,
                        li.members_at(i as int).len() as int,
                    ).contains(m),
            ) =~= msall);
            assert(g.adj() == overlaid(base_adj, vs, msall));
            assert forall|v: u64| #[trigger] g.nodes().contains(v) implies v == vs
                || acc.tracks(v) by {
                if v != vs {
                    assert(base_nodes.contains(v));
                }
            }
        }
        let ghost acc0 = acc;
        dijkstra(g, &mut acc, vs, threshold, i);
        proof {
            assert(!msall.contains(vs));
            assert forall|v: u64, c: int|
                0 <= c < i + 1 implies ((#[trigger] acc.reached(v, c)) <==> ids@.contains(v)
                && category_reach(base_adj, *li, c, v, tt)) by {
                if c < i {
                    assert(acc.reached(v, c) <==> acc0.reached(v, c));
                } else {
                    assert(acc.reached(v, c) <==> acc0.reached(v, c) || (v != vs && reach_within(
                        overlaid(base_adj, vs, msall),
                        vs,
                        v,
                        tt,
                    )));
                    assert(!acc0.reached(v, c));
                    if v != vs {
                        lemma_overlay_reach(base_adj, vs, msall, v, tt);
                    }
                    if acc.reached(v, c) {
                        assert(v != vs);
                        assert(exists|m: u64| #[trigger]
                            msall.contains(m) && reach_within(base_adj, m, v, tt));
                        let m = choose|m: u64| #[trigger]
                            msall.contains(m) && reach_within(base_adj, m, v, tt);
                        assert(li.members_at(c).contains(m));
                        assert(category_reach(base_adj, *li, c, v, tt));
                        assert(acc.tracks(v));
                        assert(ids@.contains(v));
                    }
                    if ids@.contains(v) && category_reach(base_adj, *li, c, v, tt) {
                        let m = choose|m: u64| #[trigger]
                            li.members_at(c).contains(m) && reach_within(base_adj, m, v, tt);
                        assert(msall.contains(m));
                        assert(base_nodes.contains(v));
                        assert(v <= max_id);
                        assert(v != vs);
                        assert(exists|m2: u64| #[trigger]
                            msall.contains(m2) && reach_within(base_adj, m2, v, tt));
                        assert(reach_within(overlaid(base_adj, vs, msall), vs, v, tt));
                    }
                }
            }
            assert forall|v: u64, c: int| i + 1 <= c < p implies !(#[trigger] acc.reached(
                v,
                c,
            )) by {
                assert(acc.reached(v, c) <==> acc0.reached(v, c));
            }
        }
        g.remove_node(vs);
        proof {
            lemma_overlaid_remove(base_adj, vs, msall);
            assert(g.adj() =~= base_adj);
            assert(g.nodes() =~= base_nodes);
        }
        i = i + 1;
    }
    let result = acc.fully_reached();
    proof {
        lemma_prefix_filter_agree(acc, base_adj, *li, tt, acc.ids_seq().len() as int);
        assert(acc.ids_seq().subrange(0, acc.ids_seq().len() as int) =~= ids@);
    }
    result
}

/// Two location records declare the same identifier.
pub open spec fn has_duplicate_id(recs: Seq<Node>) -> bool {
    exists|j: int, k: int|
        0 <= j < k < recs.len() && (#[trigger] recs[j]).id == (#[trigger] recs[k]).id
}

/// The identifiers of the records, in record order.
pub open spec fn record_id_seq(recs: Seq<Node>) -> Seq<u64> {
    Seq::new(recs.len(), |k: int| recs[k].id)
}

/// The category and membership bookkeeping of a run fits the machine:
/// virtual source identifiers stay within the identifier type, and the
/// reach table within the address space.
pub open spec fn fits(recs: Seq<Node>) -> bool {
    &&& crate::records::max_record_id(recs) + distinct_labels(recs).len() <= u64::MAX
    &&& recs.len() * distinct_labels(recs).len() <= usize::MAX
}

/// Some record labelled with category `c` lies within `tt` of `v`, stated
/// over the records alone.
pub open spec fn category_reach_rec(
    e: Map<(u64, u64), u64>,
    recs: Seq<Node>,
    c: int,
    v: u64,
    tt: int,
) -> bool {
    exists|m: u64| #[trigger]
        ids_with_label(recs, distinct_labels(recs)[c]).contains(m) && reach_within(e, m, v, tt)
}

/// Membership in the t-minute city, stated over the records alone.
pub open spec fn in_min_city_rec(e: Map<(u64, u64), u64>, recs: Seq<Node>, tt: int, v: u64) -> bool {
    forall|c: int|
        0 <= c < distinct_labels(recs).len() ==> #[trigger] category_reach_rec(e, recs, c, v, tt)
}

/// The locations of `ids`, in order, that lie in the t-minute city of the
/// records.
pub open spec fn city_filter_ids(
    e: Map<(u64, u64), u64>,
    recs: Seq<Node>,
    tt: int,
    ids: Seq<u64>,
) -> Seq<u64>
    decreases ids.len(),
{
    if ids.len() == 0 {
        Seq::empty()
    } else {
        let pre = city_filter_ids(e, recs, tt, ids.drop_last());
        if in_min_city_rec(e, recs, tt, ids.last()) {
            pre.push(ids.last())
        } else {
            pre
        }
    }
}

/// What the whole computation returns on success: the declared locations,
/// in record order, that lie within the threshold of every category.
pub open spec fn minute_city_spec(e: Map<(u64, u64), u64>, recs: Seq<Node>, tt: int) -> Seq<u64> {
    city_filter_ids(e, recs, tt, record_id_seq(recs))
}

/// Per category, the label-index statement of reachability and the
/// record-level statement agree.
pub proof fn lemma_category_levels(
    e: Map<(u64, u64), u64>,
    li: LabelIndex,
    recs: Seq<Node>,
    c: int,
    v: u64,
    tt: int,
)
    requires
        li.models(recs),
        0 <= c < li.p(),
    ensures
        category_reach(e, li, c, v, tt) <==> category_reach_rec(e, recs, c, v, tt),
{
    assert(li.members_at(c) == ids_with_label(recs, distinct_labels(recs)[c]));
    if category_reach(e, li, c, v, tt) {
        let m = choose|m: u64| #[trigger]
            li.members_at(c).contains(m) && reach_within(e, m, v, tt);
        assert(ids_with_label(recs, distinct_labels(recs)[c]).contains(m));
    }
    if category_reach_rec(e, recs, c, v, tt) {
        let m = choose|m: u64| #[trigger]
            ids_with_label(recs, distinct_labels(recs)[c]).contains(m) && reach_within(
            e,
            m,
            v,
            tt,
        );
        assert(li.members_at(c).contains(m));
    }
}

/// The label-index statement of city membership and the record-level
/// statement agree.
pub proof fn lemma_min_city_levels(
    e: Map<(u64, u64), u64>,
    li: LabelIndex,
    recs: Seq<Node>,
    tt: int,
    v: u64,
)
    requires
        li.models(recs),
    ensures
        in_min_city(e, li, tt, v) <==> in_min_city_rec(e, recs, tt, v),
{
    if in_min_city(e, li, tt, v) {
        assert forall|c: int|
            0 <= c < distinct_labels(recs).len() implies #[trigger] category_reach_rec(
            e,
            recs,
            c,
            v,
            tt,
        ) by {
            assert(category_reach(e, li, c, v, tt));
            lemma_category_levels(e, li, recs, c, v, tt);
        }
    }
    if in_min_city_rec(e, recs, tt, v) {
        assert forall|c: int| 0 <= c < li.p() implies #[trigger] category_reach(
            e,
            li,
            c,
            v,
            tt,
        ) by {
            assert(category_reach_rec(e, recs, c, v, tt));
            lemma_category_levels(e, li, recs, c, v, tt);
        }
    }
}

proof fn lemma_filter_levels(
    e: Map<(u64, u64), u64>,
    li: LabelIndex,
    recs: Seq<Node>,
    tt: int,
    ids: Seq<u64>,
)
    requires
        li.models(recs),
    ensures
        city_filter(e, li, tt, ids) == city_filter_ids(e, recs, tt, ids),
    decreases ids.len(),
{
    if ids.len() > 0 {
        lemma_filter_levels(e, li, recs, tt, ids.drop_last());
        lemma_min_city_levels(e, li, recs, tt, ids.last());
    }
}

/// The whole computation: index the records, build the graph, and run the
/// per-category searches.  Success is owed exactly when no identifier is
/// declared twice, every connection names declared locations, and the
/// bookkeeping fits the machine; the result is then exactly the declared
/// locations, in record order, that lie within the threshold of every
/// category.  Any failure aborts the run with the reason; no partial
/// result is produced.
pub fn t_minute_city(records: &Vec<Node>, edges: &Vec<Edge>, threshold: u64) -> (r: Result<
    Vec<u64>,
    BuildError,
>)
    ensures
        r is Ok <==> !has_duplicate_id(records@) && edges_known(records@, edges@) && fits(
            records@,
        ),
        r matches Ok(res) ==> res@ == minute_city_spec(
            edges_model(edges@),
            records@,
            threshold as int,
        ),
        has_duplicate_id(records@) ==> (r matches Err(er) && er is DuplicateLocation),
        r matches Err(er) ==> (er matches BuildError::DuplicateLocation(x) ==> exists|
            j: int,
            k: int,
        |
            0 <= j < k < records@.len() && (#[trigger] records@[j]).id == x && (
            #[trigger] records@[k]).id == x),
        !has_duplicate_id(records@) && !edges_known(records@, edges@) ==> (r matches Err(er)
            && er is UnknownLocation),
        r matches Err(er) ==> (er matches BuildError::UnknownLocation(x) ==> !has_record_id(
            records@,
            x,
        )),
        !has_duplicate_id(records@) && edges_known(records@, edges@) && !fits(records@) ==> r
            == Err::<Vec<u64>, BuildError>(BuildError::IdSpaceExhausted),
{
    broadcast use vstd::std_specs::hash::group_hash_axioms;

    let mut seen: HashMap<u64, bool> = HashMap::new();
    let mut ids: Vec<u64> = Vec::new();
    let mut k: usize = 0;
    proof {
        assert(Map::<u64, bool>::empty().dom() =~= Set::<u64>::empty());
    }
    while k < records.len()
        invariant
            0 <= k <= records@.len(),
            ids@.len() == k,
            forall|j: int| 0 <= j < k ==> #[trigger] ids@[j] == records@[j].id,
            forall|x: u64| #[trigger]
                seen@.dom().contains(x) <==> exists|j: int|
                    0 <= j < k && (#[trigger] records@[j]).id == x,
            forall|j1: int, j2: int|
                #![trigger records@[j1].id, records@[j2].id]
                0 <= j1 < j2 < k ==> records@[j1].id != records@[j2].id,
        decreases records@.len() - k,
    {
        let id = records[k].id;
        if seen.contains_key(&id) {
            proof {
                let j = choose|j: int| 0 <= j < k && (#[trigger] records@[j]).id == id;
                assert(records@[j].id == id && records@[k as int].id == id);
                assert(has_duplicate_id(records@));
                assert(exists|j2: int, k2: int|
                    0 <= j2 < k2 < records@.len() && (#[trigger] records@[j2]).id == id && (
                    #[trigger] records@[k2]).id == id);
            }
            return Err(BuildError::DuplicateLocation(id));
        }
        seen.insert(id, true);
        ids.push(id);
        proof {
            assert forall|x: u64| #[trigger] seen@.dom().contains(x) <==> exists|j: int|
                0 <= j < k + 1 && (#[trigger] records@[j]).id == x by {
                if seen@.dom().contains(x) {
                    if x != id {
                        let j = choose|j: int| 0 <= j < k && (#[trigger] records@[j]).id == x;
                        assert(records@[j].id == x);
                    } else {
                        assert(records@[k as int].id == x);
                    }
                }
                if exists|j: int| 0 <= j < k + 1 && (#[trigger] records@[j]).id == x {
                    let j = choose|j: int| 0 <= j < k + 1 && (#[trigger] records@[j]).id == x;
                    if j < k {
                        assert(exists|j2: int| 0 <= j2 < k && (#[trigger] records@[j2]).id == x);
                    }
                }
            }
        }
        k = k + 1;
    }
    proof {
        assert(!has_duplicate_id(records@)) by {
            if has_duplicate_id(records@) {
                let (j1, j2) = choose|j1: int, j2: int|
                    0 <= j1 < j2 < records@.len() && (#[trigger] records@[j1]).id == (
                    #[trigger] records@[j2]).id;
                assert(records@[j1].id != records@[j2].id);
            }
        }
    }
    let mut g = match create_graph(records, edges) {
        Ok(g) => g,
        Err(er) => {
            proof {
                assert(!edges_known(records@, edges@));
                assert(er is UnknownLocation);
                let j = choose|j: int|
                    0 <= j < edges@.len() && ((!has_record_id(
                        records@,
                        (#[trigger] edges@[j]).source,
                    ) && er == BuildError::UnknownLocation(edges@[j].source)) || (has_record_id(
                        records@,
                        edges@[j].source,
                    ) && !has_record_id(records@, edges@[j].target) && er
                        == BuildError::UnknownLocation(edges@[j].target)));
                if !has_record_id(records@, edges@[j].source) {
                    assert(er == BuildError::UnknownLocation(edges@[j].source));
                } else {
                    assert(er == BuildError::UnknownLocation(edges@[j].target));
                }
            }
            return Err(er);
        },
    };
    let li = LabelIndex::build(records);
    let maxid = crate::records::max_id(records);
    let p = li.count();
    let vs_room = maxid.checked_add(p as u64);
    let table_room = ids.len().checked_mul(p);
    if vs_room.is_none() || table_room.is_none() {
        proof {
            assert(!fits(records@));
        }
        return Err(BuildError::IdSpaceExhausted);
    }
    proof {
        crate::records::lemma_max_record_id(records@);
        assert forall|j: int| 0 <= j < ids@.len() implies g.nodes().contains(
            #[trigger] ids@[j],
        ) by {
            assert(records@[j].id == ids@[j]);
            assert(has_record_id(records@, ids@[j]));
        }
        assert forall|v: u64| #[trigger] g.nodes().contains(v) implies ids@.contains(v) && v
            <= maxid by {
            let j = choose|j: int| 0 <= j < records@.len() && (#[trigger] records@[j]).id == v;
            assert(ids@[j] == v);
        }
        assert forall|i: int, j: int|
            #![trigger li.members_at(i)[j]]
            0 <= i < li.p() && 0 <= j < li.members_at(i).len() implies g.nodes().contains(
            li.members_at(i)[j],
        ) by {
            lemma_members_are_record_ids(records@, distinct_labels(records@)[i]);
            assert(li.members_at(i) == ids_with_label(records@, distinct_labels(records@)[i]));
            assert(has_record_id(records@, li.members_at(i)[j]));
        }
    }
    let res = compute_t_minute_city(&mut g, &li, &ids, maxid, threshold);
    proof {
        lemma_filter_levels(edges_model(edges@), li, records@, threshold as int, ids@);
        assert(ids@ =~= record_id_seq(records@));
        assert(fits(records@));
    }
    Ok(res)
}

} // verus!
