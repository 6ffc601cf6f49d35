//! The threshold-truncated single-source shortest-path search.
//!
//! Classic Dijkstra over the graph store, seeded with distance zero at the
//! start node, with lazy queue entries: relaxing an edge pushes a fresh
//! entry instead of decreasing a key, and an entry popped for an already
//! settled node is discarded.  The search stops as soon as the popped
//! tentative distance exceeds the threshold: under nonnegative weights
//! every remaining queued distance is at least as large, so no further
//! node can lie within the threshold.
//!
//! The contract is exact: a location is marked in the given reach-vector
//! column if and only if it is not the start node and some path from the
//! start reaches it within the threshold.

use vstd::prelude::*;
use std::collections::HashMap;
use pheap::PairingHeap;
use vstd::multiset::Multiset;
use crate::accumulator::Accumulator;
use crate::graph::GraphStore;
use crate::heap::{heap_delete_min, heap_entries, heap_insert, heap_new};
use crate::paths::{
    costed_path, has_edge, is_path, lemma_costed_path_step, lemma_costed_path_trivial,
    lemma_costed_to_reach, lemma_is_path_subrange, lemma_prefix_cost_le, lemma_prefix_cost_step,
    path_cost, reach_within,
};

verus! {

broadcast use vstd::std_specs::hash::group_hash_axioms, vstd::multiset::group_multiset_axioms;

/// Every edge leaving `u` has been relaxed against the tentative distances
/// `bb`: either the sum would not even fit in the distance type, or the far
/// endpoint has a tentative distance no worse than going through `u`.
pub open spec fn edges_relaxed_from(e: Map<(u64, u64), u64>, bb: Map<u64, u64>, u: u64) -> bool {
    forall|x: u64| #[trigger]
        has_edge(e, u, x) ==> bb[u] + e[(u, x)] > u64::MAX || (bb.dom().contains(x) && bb[x] <= bb[u]
            + e[(u, x)])
}

/// Every settled node has all its edges relaxed.
pub open spec fn all_relaxed(e: Map<(u64, u64), u64>, bb: Map<u64, u64>, done: Set<u64>) -> bool {
    forall|u: u64| #[trigger] done.contains(u) ==> edges_relaxed_from(e, bb, u)
}

/// What the search maintains between queue pops, over the adjacency `e`,
/// the node set `nodes`, the start `s`, the threshold `tt`, the tentative
/// distances `bb`, the queue contents `hh` and the settled set `done`.
pub open spec fn search_inv(
    e: Map<(u64, u64), u64>,
    nodes: Set<u64>,
    s: u64,
    tt: int,
    bb: Map<u64, u64>,
    hh: Multiset<(u64, u64)>,
    done: Set<u64>,
) -> bool {
    &&& bb.dom().contains(s) && bb[s] == 0
    &&& forall|v: u64| #[trigger]
        bb.dom().contains(v) ==> costed_path(e, s, v, bb[v] as int) && (v == s || nodes.contains(v))
    &&& forall|en: (u64, u64)| #[trigger]
        hh.count(en) > 0 ==> bb.dom().contains(en.0) && bb[en.0] <= en.1 && costed_path(
            e,
            s,
            en.0,
            en.1 as int,
        )
    &&& forall|v: u64|
        #![trigger bb.dom().contains(v), done.contains(v)]
        bb.dom().contains(v) && !done.contains(v) ==> hh.count((v, bb[v])) > 0
    &&& forall|u: u64| #[trigger] done.contains(u) ==> bb.dom().contains(u) && bb[u] <= tt
    &&& forall|u: u64, en: (u64, u64)|
        #![trigger done.contains(u), hh.count(en)]
        done.contains(u) && hh.count(en) > 0 ==> bb[u] <= en.1
    &&& all_relaxed(e, bb, done)
    &&& done.finite()
    &&& done.subset_of(nodes.insert(s))
    &&& done.len() <= nodes.len() + 1
}

/// At exit every node on every start-rooted path within the threshold has
/// been settled: the queue holds nothing at or below the threshold any
/// more, and settled nodes have relaxed all their edges, so an unsettled
/// node on such a path would still owe the queue an entry.
proof fn lemma_search_complete(
    e: Map<(u64, u64), u64>,
    s: u64,
    tt: int,
    bb: Map<u64, u64>,
    hh: Multiset<(u64, u64)>,
    done: Set<u64>,
    p: Seq<u64>,
)
    requires
        0 <= tt <= u64::MAX,
        bb.dom().contains(s) && bb[s] == 0,
        all_relaxed(e, bb, done),
        forall|u: u64| #[trigger] done.contains(u) ==> bb.dom().contains(u),
        forall|x: u64|
            #![trigger bb.dom().contains(x), done.contains(x)]
            bb.dom().contains(x) && !done.contains(x) && bb[x] <= tt ==> hh.count((x, bb[x])) > 0,
        forall|en: (u64, u64)| #[trigger] hh.count(en) > 0 ==> en.1 > tt,
        is_path(e, p),
        p.first() == s,
        path_cost(e, p) <= tt,
    ensures
        forall|i: int| 0 <= i < p.len() ==> done.contains(#[trigger] p[i]) && bb.dom().contains(
            p[i],
        ) && bb[p[i]] <= path_cost(e, p.subrange(0, i + 1)),
    decreases p.len(),
{
    let n = p.len() as int;
    if n == 1 {
        if !done.contains(s) {
            assert(hh.count((s, bb[s])) > 0);
            assert(false);
        }
        assert(p.subrange(0, 1) =~= p);
        assert(done.contains(p[0]) && bb[p[0]] <= path_cost(e, p.subrange(0, 1)));
    } else {
        let pre = p.subrange(0, n - 1);
        lemma_is_path_subrange(e, p, 0, n - 1);
        lemma_prefix_cost_le(e, p, n - 2);
        lemma_search_complete(e, s, tt, bb, hh, done, pre);
        let k = n - 2;
        let u = p[k];
        let x = p[k + 1];
        assert(pre[k] == u);
        assert(pre.subrange(0, k + 1) =~= p.subrange(0, k + 1));
        assert(done.contains(u) && bb.dom().contains(u) && bb[u] <= path_cost(
            e,
            p.subrange(0, k + 1),
        ));
        assert(has_edge(e, p[k], p[k + 1]));
        lemma_prefix_cost_step(e, p, k);
        assert(p.subrange(0, n) =~= p);
        assert(bb[u] + e[(u, x)] <= path_cost(e, p));
        assert(edges_relaxed_from(e, bb, u));
        assert(bb.dom().contains(x) && bb[x] <= bb[u] + e[(u, x)]);
        if !done.contains(x) {
            assert(hh.count((x, bb[x])) > 0);
            assert(false);
        }
        assert forall|i: int| 0 <= i < p.len() implies done.contains(#[trigger] p[i]) && bb
            .dom()
            .contains(p[i]) && bb[p[i]] <= path_cost(e, p.subrange(0, i + 1)) by {
            if i < n - 1 {
                assert(pre[i] == p[i]);
                assert(done.contains(pre[i]) && bb.dom().contains(pre[i]) && bb[pre[i]]
                    <= path_cost(e, pre.subrange(0, i + 1)));
                assert(pre.subrange(0, i + 1) =~= p.subrange(0, i + 1));
            }
        }
    }
}

/// Run the threshold search from `start` and set column `col` of the
/// accumulator for every location, other than `start` itself, that lies
/// within `threshold` of `start`.  Exact in both directions, and no other
/// column is touched.
pub fn dijkstra(g: &GraphStore, acc: &mut Accumulator, start: u64, threshold: u64, col: usize)
    requires
        g.wf(),
        old(acc).wf(),
        (col as int) < old(acc).width_spec(),
        forall|v: u64| #[trigger] g.nodes().contains(v) ==> v == start || old(acc).tracks(v),
    ensures
        final(acc).wf(),
        final(acc).ids_seq() == old(acc).ids_seq(),
        final(acc).width_spec() == old(acc).width_spec(),
        forall|v2: u64, c2: int|
            0 <= c2 < old(acc).width_spec() && c2 != col ==> ((#[trigger] final(acc).reached(
                v2,
                c2,
            )) <==> old(acc).reached(v2, c2)),
        forall|v2: u64|
            (#[trigger] final(acc).reached(v2, col as int)) <==> old(acc).reached(v2, col as int)
                || (v2 != start && reach_within(g.adj(), start, v2, threshold as int)),
{
    let ghost e = g.adj();
    let ghost nodes = g.nodes();
    let ghost s = start;
    let ghost tt = threshold as int;
    let ghost width = old(acc).width_spec();

    let mut best: HashMap<u64, u64> = HashMap::new();
    let mut settled: HashMap<u64, bool> = HashMap::new();
    let mut heap: PairingHeap<u64, u64> = heap_new();
    best.insert(start, 0);
    heap_insert(&mut heap, start, 0);
    proof {
        lemma_costed_path_trivial(e, s);
        assert(heap_entries(heap) == Multiset::<(u64, u64)>::empty().insert((s, 0u64)));
        assert(Map::<u64, bool>::empty().dom() =~= Set::<u64>::empty());
        assert(search_inv(e, nodes, s, tt, best@, heap_entries(heap), settled@.dom())) by {
            assert(best@.dom().contains(s) && best@[s] == 0);
            assert forall|en: (u64, u64)| #[trigger]
                heap_entries(heap).count(en) > 0 implies best@.dom().contains(en.0) && best@[en.0]
                <= en.1 && costed_path(e, s, en.0, en.1 as int) by {
                assert(en == (s, 0u64));
            }
        }
    }
    loop
        invariant_except_break
            g.wf(),
            e == g.adj(),
            nodes == g.nodes(),
            tt == threshold as int,
            forall|v: u64| #[trigger] nodes.contains(v) ==> v == s || old(acc).tracks(v),
            s == start,
            search_inv(e, nodes, s, tt, best@, heap_entries(heap), settled@.dom()),
            acc.wf(),
            acc.ids_seq() == old(acc).ids_seq(),
            acc.width_spec() == width,
            width == old(acc).width_spec(),
            (col as int) < width,
            forall|v2: u64, c2: int|
                0 <= c2 < width && c2 != col ==> ((#[trigger] acc.reached(v2, c2)) <==> old(
                    acc,
                ).reached(v2, c2)),
            forall|v2: u64|
                (#[trigger] acc.reached(v2, col as int)) <==> old(acc).reached(v2, col as int) || (
                v2 != s && settled@.dom().contains(v2)),
        ensures
            acc.wf(),
            acc.ids_seq() == old(acc).ids_seq(),
            acc.width_spec() == width,
            best@.dom().contains(s) && best@[s] == 0,
            all_relaxed(e, best@, settled@.dom()),
            forall|u: u64| #[trigger]
                settled@.dom().contains(u) ==> best@.dom().contains(u) && best@[u] <= tt,
            forall|v: u64| #[trigger]
                best@.dom().contains(v) ==> costed_path(e, s, v, best@[v] as int),
            forall|x: u64|
                #![trigger best@.dom().contains(x), settled@.dom().contains(x)]
                best@.dom().contains(x) && !settled@.dom().contains(x) && best@[x] <= tt
                    ==> heap_entries(heap).count((x, best@[x])) > 0,
            forall|en: (u64, u64)| #[trigger] heap_entries(heap).count(en) > 0 ==> en.1 > tt,
            forall|v2: u64, c2: int|
                0 <= c2 < width && c2 != col ==> ((#[trigger] acc.reached(v2, c2)) <==> old(
                    acc,
                ).reached(v2, c2)),
            forall|v2: u64|
                (#[trigger] acc.reached(v2, col as int)) <==> old(acc).reached(v2, col as int) || (
                v2 != s && settled@.dom().contains(v2)),
        decreases nodes.len() + 1 - settled@.dom().len(), heap_entries(heap).len(),
    {
        let ghost h_old = heap_entries(heap);
        let ghost done_old = settled@.dom();
        let popped = heap_delete_min(&mut heap);
        match popped {
            None => {
                break ;
            },
            Some(entry) => {
                let (v, d) = entry;
                if d > threshold {
                    proof {
                        assert forall|en: (u64, u64)| #[trigger]
                            heap_entries(heap).count(en) > 0 implies en.1 > tt by {
                            assert(h_old.count(en) > 0);
                        }
                        assert forall|x: u64|
                            best@.dom().contains(x) && !settled@.dom().contains(x) && best@[x]
                                <= tt implies heap_entries(heap).count((x, best@[x])) > 0 by {
                            assert(h_old.count((x, best@[x])) > 0);
                            assert((x, best@[x]) != entry);
                        }
                    }
                    break ;
                }
                if settled.contains_key(&v) {
                    proof {
                        assert(settled@.dom() == done_old);
                        assert forall|x: u64|
                            best@.dom().contains(x) && !settled@.dom().contains(x) implies
                            heap_entries(heap).count((x, best@[x])) > 0 by {
                            assert(h_old.count((x, best@[x])) > 0);
                            assert(settled@.dom().contains(v));
                            assert((x, best@[x]) != entry);
                        }
                        assert(heap_entries(heap).len() < h_old.len());
                    }
                } else {
                    proof {
                        assert(h_old.count(entry) > 0);
                        assert(best@.dom().contains(v) && best@[v] <= d);
                        assert(h_old.count((v, best@[v])) > 0);
                        assert(d <= best@[v]);
                        assert(best@[v] == d);
                    }
                    let ghost done1 = done_old.insert(v);
                    settled.insert(v, true);
                    proof {
                        assert(settled@.dom() =~= done1);
                        assert(v == s || nodes.contains(v));
                        assert(done1.subset_of(nodes.insert(s)));
                        vstd::set_lib::lemma_len_subset(done1, nodes.insert(s));
                        assert(nodes.insert(s).len() <= nodes.len() + 1);
                        assert forall|u: u64| #[trigger] done1.contains(u) implies best@[u]
                            <= d by {
                            if u != v {
                                assert(done_old.contains(u));
                                assert(h_old.count(entry) > 0);
                            }
                        }
                    }
                    if v != start {
                        proof {
                            assert(nodes.contains(v));
                            assert(acc.tracks(v));
                        }
                        let ghost acc_before = *acc;
                        acc.mark(v, col);
                        proof {
                            assert forall|v2: u64|
                                (#[trigger] acc.reached(v2, col as int)) <==> old(acc).reached(
                                    v2,
                                    col as int,
                                ) || (v2 != s && done1.contains(v2)) by {
                                assert(acc.reached(v2, col as int) <==> acc_before.reached(
                                    v2,
                                    col as int,
                                ) || v2 == v);
                            }
                        }
                    }
                    let nbrs = g.neighbors(v);
                    let ghost nb = nbrs@;
                    let mut idx: usize = 0;
                    while idx < nbrs.len()
                        invariant
                            g.wf(),
                            e == g.adj(),
                            nodes == g.nodes(),
                            tt == threshold as int,
                            s == start,
                            nb == nbrs@,
                            0 <= idx <= nb.len(),
                            done1 == done_old.insert(v),
                            forall|j: int| 0 <= j < nb.len() ==> has_edge(e, v, (#[trigger] nb[j]).0)
                                && e[(v, nb[j].0)] == nb[j].1,
                            done1.contains(v),
                            best@[v] == d,
                            d <= tt,
                            settled@.dom() == done1,
                            best@.dom().contains(s) && best@[s] == 0,
                            forall|v2: u64| #[trigger]
                                best@.dom().contains(v2) ==> costed_path(e, s, v2, best@[v2] as int)
                                    && (v2 == s || nodes.contains(v2)),
                            forall|en: (u64, u64)| #[trigger]
                                heap_entries(heap).count(en) > 0 ==> best@.dom().contains(en.0)
                                    && best@[en.0] <= en.1 && costed_path(e, s, en.0, en.1 as int),
                            forall|v2: u64|
                                #![trigger best@.dom().contains(v2), done1.contains(v2)]
                                best@.dom().contains(v2) && !done1.contains(v2) ==> heap_entries(
                                    heap,
                                ).count((v2, best@[v2])) > 0,
                            forall|u: u64| #[trigger]
                                done1.contains(u) ==> best@.dom().contains(u) && best@[u] <= tt
                                    && best@[u] <= d,
                            forall|u: u64, en: (u64, u64)|
                                #![trigger done1.contains(u), heap_entries(heap).count(en)]
                                done1.contains(u) && heap_entries(heap).count(en) > 0 ==> best@[u]
                                    <= en.1,
                            all_relaxed(e, best@, done_old),
                            forall|k: int|
                                0 <= k < idx ==> (d + (#[trigger] nb[k]).1 > u64::MAX || (
                                best@.dom().contains(nb[k].0) && best@[nb[k].0] <= d + nb[k].1)),
                            done1.finite(),
                            done1.subset_of(nodes.insert(s)),
                            done1.len() <= nodes.len() + 1,
                        decreases nb.len() - idx,
                    {
                        let x = nbrs[idx].0;
                        let w = nbrs[idx].1;
                        proof {
                            assert(has_edge(e, v, (nb[idx as int]).0));
                        }
                        match d.checked_add(w) {
                            Some(nd) => {
                                let improve = match best.get(&x) {
                                    Some(b) => nd < *b,
                                    None => true,
                                };
                                if improve {
                                    proof {
                                        assert(!done1.contains(x));
                                    }
                                    let ghost b0 = best@;
                                    best.insert(x, nd);
                                    heap_insert(&mut heap, x, nd);
                                    proof {
                                        assert(costed_path(e, s, v, d as int));
                                        lemma_costed_path_step(e, s, v, x, d as int);
                                        assert(e[(v, x)] == w);
                                        assert(costed_path(e, s, x, (d + w) as int));
                                        assert(best@ == b0.insert(x, nd));
                                        assert forall|u: u64| #[trigger]
                                            done1.contains(u) implies best@[u] == b0[u] by {
                                            assert(u != x);
                                        }
                                        assert forall|u: u64| #[trigger]
                                            done_old.contains(u) implies edges_relaxed_from(
                                            e,
                                            best@,
                                            u,
                                        ) by {
                                            assert(done1.contains(u));
                                            assert(best@[u] == b0[u]);
                                            assert(edges_relaxed_from(e, b0, u));
                                            assert forall|y: u64| #[trigger]
                                                has_edge(e, u, y) implies best@[u] + e[(u, y)]
                                                > u64::MAX || (best@.dom().contains(y) && best@[y]
                                                <= best@[u] + e[(u, y)]) by {
                                                assert(b0[u] + e[(u, y)] > u64::MAX || (
                                                b0.dom().contains(y) && b0[y] <= b0[u] + e[(
                                                    u,
                                                    y,
                                                )]));
                                                assert(best@[u] == b0[u]);
                                                if b0.dom().contains(y) && b0[y] <= b0[u] + e[(
                                                    u,
                                                    y,
                                                )] {
                                                    if y == x {
                                                        assert(best@[y] == nd);
                                                        assert(nd < b0[x]);
                                                    } else {
                                                        assert(best@[y] == b0[y]);
                                                    }
                                                }
                                            }
                                        }
                                    }
                                }
                            },
                            None => {
                            },
                        }
                        idx = idx + 1;
                    }
                    proof {
                        assert forall|u: u64| #[trigger] done1.contains(u) implies
                            edges_relaxed_from(e, best@, u) by {
                            if u == v {
                                assert forall|y: u64| #[trigger] has_edge(e, v, y) implies best@[v]
                                    + e[(v, y)] > u64::MAX || (best@.dom().contains(y) && best@[y]
                                    <= best@[v] + e[(v, y)]) by {
                                    let k = choose|k: int|
                                        0 <= k < nb.len() && (#[trigger] nb[k]).0 == y;
                                    assert(e[(v, nb[k].0)] == nb[k].1);
                                    assert(d + nb[k].1 > u64::MAX || (best@.dom().contains(nb[k].0)
                                        && best@[nb[k].0] <= d + nb[k].1));
                                    assert(best@[v] == d);
                                }
                            }
                        }
                        assert(search_inv(
                            e,
                            nodes,
                            s,
                            tt,
                            best@,
                            heap_entries(heap),
                            settled@.dom(),
                        ));
                        assert(done1.len() == done_old.len() + 1);
                    }
                }
            },
        }
    }
    proof {
        let bb = best@;
        let done = settled@.dom();
        assert forall|v2: u64|
            (#[trigger] acc.reached(v2, col as int)) <==> old(acc).reached(v2, col as int) || (v2
                != s && reach_within(e, s, v2, tt)) by {
            if v2 != s && done.contains(v2) {
                assert(costed_path(e, s, v2, bb[v2] as int));
                lemma_costed_to_reach(e, s, v2, bb[v2] as int, tt);
            }
            if v2 != s && reach_within(e, s, v2, tt) {
                let p = choose|p: Seq<u64>|
                    #[trigger] is_path(e, p) && p.first() == s && p.last() == v2 && path_cost(e, p)
                        <= tt;
                lemma_search_complete(e, s, tt, bb, heap_entries(heap), done, p);
                assert(done.contains(p[p.len() - 1]));
            }
        }
    }
}

} // verus!
