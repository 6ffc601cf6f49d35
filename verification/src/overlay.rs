//! The virtual-source overlay: a transient extension of a base adjacency map
//! by one synthetic node joined with zero-weight edges to every location of
//! one service category.
//!
//! The overlay exists so that the multi-origin question "is `v` within `t`
//! of some member of the category" can be answered by a single-source search
//! from the synthetic node.  The two directions of that equivalence are
//! proved here: a path from the virtual source yields a path from some
//! member, and a path from a member yields a path from the virtual source.

use vstd::prelude::*;
use crate::paths::{
    has_edge, is_path, lemma_is_path_subrange, lemma_path_cost_nonneg, lemma_path_same_edges,
    lemma_reach_monotone, lemma_suffix_cost_le, path_cost, reach_within,
};

verus! {

/// No edge of `e` touches the node `vs`.
pub open spec fn avoids(e: Map<(u64, u64), u64>, vs: u64) -> bool {
    forall|a: u64, b: u64| #[trigger] has_edge(e, a, b) ==> a != vs && b != vs
}

/// `e` extended by zero-weight edges, in both directions, between `vs` and
/// every member of `ms`.
pub open spec fn overlaid(e: Map<(u64, u64), u64>, vs: u64, ms: Set<u64>) -> Map<(u64, u64), u64> {
    Map::new(
        |pr: (u64, u64)|
            e.contains_key(pr) || (pr.0 == vs && ms.contains(pr.1)) || (pr.1 == vs && ms.contains(
                pr.0,
            )),
        |pr: (u64, u64)|
            if (pr.0 == vs && ms.contains(pr.1)) || (pr.1 == vs && ms.contains(pr.0)) {
                0u64
            } else {
                e[pr]
            },
    )
}

/// Overlaying no members changes nothing.
pub proof fn lemma_overlaid_empty(e: Map<(u64, u64), u64>, vs: u64)
    requires
        avoids(e, vs),
    ensures
        overlaid(e, vs, Set::empty()) =~= e,
{
    let over = overlaid(e, vs, Set::empty());
    assert forall|pr: (u64, u64)| over.contains_key(pr) <==> e.contains_key(pr) by {
        if e.contains_key(pr) {
            assert(has_edge(e, pr.0, pr.1));
        }
    }
    assert forall|pr: (u64, u64)| #[trigger] over.contains_key(pr) implies over[pr] == e[pr] by {
        assert(has_edge(e, pr.0, pr.1));
    }
}

/// Joining one more member to the virtual source adds exactly the two
/// directions of one zero-weight edge to the overlay.
pub proof fn lemma_overlaid_add_member(e: Map<(u64, u64), u64>, vs: u64, ms: Set<u64>, m: u64)
    requires
        avoids(e, vs),
        m != vs,
    ensures
        overlaid(e, vs, ms).insert((vs, m), 0u64).insert((m, vs), 0u64) =~= overlaid(
            e,
            vs,
            ms.insert(m),
        ),
{
    let lhs = overlaid(e, vs, ms).insert((vs, m), 0u64).insert((m, vs), 0u64);
    let rhs = overlaid(e, vs, ms.insert(m));
    assert forall|pr: (u64, u64)| lhs.contains_key(pr) <==> rhs.contains_key(pr) by {}
    assert forall|pr: (u64, u64)| #[trigger] rhs.contains_key(pr) implies lhs[pr] == rhs[pr] by {
        if pr == (vs, m) || pr == (m, vs) {
        } else {
            if e.contains_key(pr) {
                assert(has_edge(e, pr.0, pr.1));
            }
        }
    }
}

/// Removing every pair that touches the virtual source restores the base
/// map exactly.
pub proof fn lemma_overlaid_remove(e: Map<(u64, u64), u64>, vs: u64, ms: Set<u64>)
    requires
        avoids(e, vs),
    ensures
        overlaid(e, vs, ms).remove_keys(Set::new(|pr: (u64, u64)| pr.0 == vs || pr.1 == vs)) =~= e,
{
    let over = overlaid(e, vs, ms);
    let cut = over.remove_keys(Set::new(|pr: (u64, u64)| pr.0 == vs || pr.1 == vs));
    assert forall|pr: (u64, u64)| cut.contains_key(pr) <==> e.contains_key(pr) by {
        if e.contains_key(pr) {
            assert(has_edge(e, pr.0, pr.1));
            assert(pr.0 != vs && pr.1 != vs);
            assert(over.contains_key(pr));
        }
    }
    assert forall|pr: (u64, u64)| #[trigger] cut.contains_key(pr) implies cut[pr] == e[pr] by {
        assert(has_edge(e, pr.0, pr.1));
        assert(pr.0 != vs && pr.1 != vs);
    }
}

/// Every edge of the base map is an edge of the overlaid map, with the same
/// weight.
pub proof fn lemma_overlaid_keeps_base(e: Map<(u64, u64), u64>, vs: u64, ms: Set<u64>)
    requires
        avoids(e, vs),
    ensures
        forall|a: u64, b: u64| #[trigger]
            has_edge(e, a, b) ==> has_edge(overlaid(e, vs, ms), a, b) && overlaid(e, vs, ms)[(a, b)]
                == e[(a, b)],
{
    let over = overlaid(e, vs, ms);
    assert forall|a: u64, b: u64| #[trigger] has_edge(e, a, b) implies has_edge(over, a, b) && over[(
        a,
        b,
    )] == e[(a, b)] by {
        assert(a != vs && b != vs);
        assert(over.contains_key((a, b)));
    }
}

/// A path through the overlaid map that never visits `vs` is a path of the
/// same cost through the base map.
pub proof fn lemma_path_avoiding_vs(e: Map<(u64, u64), u64>, vs: u64, ms: Set<u64>, q: Seq<u64>)
    requires
        avoids(e, vs),
        !ms.contains(vs),
        is_path(overlaid(e, vs, ms), q),
        forall|i: int| 0 <= i < q.len() ==> #[trigger] q[i] != vs,
    ensures
        is_path(e, q),
        path_cost(e, q) == path_cost(overlaid(e, vs, ms), q),
    decreases q.len(),
{
    let over = overlaid(e, vs, ms);
    assert forall|i: int| 0 <= i < q.len() - 1 implies has_edge(e, #[trigger] q[i], q[i + 1]) by {
        assert(has_edge(over, q[i], q[i + 1]));
        assert(q[i] != vs && q[i + 1] != vs);
        assert(e.contains_key((q[i], q[i + 1])));
    }
    if q.len() > 1 {
        assert(has_edge(over, q[0], q[1]));
        lemma_is_path_subrange(over, q, 1, q.len() as int);
        assert(q.subrange(1, q.len() as int) =~= q.drop_first());
        assert forall|i: int| 0 <= i < q.drop_first().len() implies #[trigger] q.drop_first()[i]
            != vs by {
            assert(q.drop_first()[i] == q[i + 1]);
        }
        lemma_path_avoiding_vs(e, vs, ms, q.drop_first());
        assert(q[0] != vs && q[1] != vs);
        assert(over[(q[0], q[1])] == e[(q[0], q[1])]);
        assert(path_cost(over, q) == over[(q[0], q[1])] + path_cost(over, q.drop_first()));
        assert(path_cost(e, q) == e[(q[0], q[1])] + path_cost(e, q.drop_first()));
    }
}

/// A path through the overlaid map from the virtual source to a real node
/// yields, from some member of the category, a base path that costs no
/// more.
pub proof fn lemma_strip_virtual_source(
    e: Map<(u64, u64), u64>,
    vs: u64,
    ms: Set<u64>,
    p: Seq<u64>,
)
    requires
        avoids(e, vs),
        !ms.contains(vs),
        is_path(overlaid(e, vs, ms), p),
        p.first() == vs,
        p.last() != vs,
    ensures
        exists|m: u64| #[trigger] ms.contains(m) && reach_within(
            e,
            m,
            p.last(),
            path_cost(overlaid(e, vs, ms), p),
        ),
    decreases p.len(),
{
    let over = overlaid(e, vs, ms);
    assert(p.len() >= 2);
    let rest = p.drop_first();
    lemma_is_path_subrange(over, p, 1, p.len() as int);
    assert(p.subrange(1, p.len() as int) =~= rest);
    assert(path_cost(over, p) == over[(p[0], p[1])] + path_cost(over, rest));
    lemma_path_cost_nonneg(over, rest);
    if exists|k: int| 0 <= k < rest.len() && #[trigger] rest[k] == vs {
        let k = choose|k: int| 0 <= k < rest.len() && #[trigger] rest[k] == vs;
        let suffix = rest.subrange(k, rest.len() as int);
        lemma_is_path_subrange(over, rest, k, rest.len() as int);
        assert(suffix.first() == vs);
        assert(suffix.last() == rest.last());
        assert(rest.last() == p.last());
        lemma_strip_virtual_source(e, vs, ms, suffix);
        let m = choose|m: u64| #[trigger] ms.contains(m) && reach_within(
            e,
            m,
            suffix.last(),
            path_cost(over, suffix),
        );
        lemma_suffix_cost_le(over, rest, k);
        lemma_reach_monotone(e, m, p.last(), path_cost(over, suffix), path_cost(over, p));
        assert(ms.contains(m) && reach_within(e, m, p.last(), path_cost(over, p)));
    } else {
        let m = rest[0];
        assert(p[1] == m);
        assert(has_edge(over, p[0], p[1]));
        assert(!has_edge(e, vs, m)) by {
            if has_edge(e, vs, m) {
                assert(vs != vs);
            }
        }
        assert(forall|i: int| 0 <= i < rest.len() ==> #[trigger] rest[i] != vs);
        assert(m != vs);
        assert(ms.contains(m));
        assert(over[(vs, m)] == 0);
        lemma_path_avoiding_vs(e, vs, ms, rest);
        assert(is_path(e, rest) && rest.first() == m && rest.last() == p.last());
        assert(path_cost(e, rest) <= path_cost(over, p));
        assert(reach_within(e, m, p.last(), path_cost(over, p)));
    }
}

/// Reachability from the virtual source within the overlaid map is exactly
/// reachability from some member of the category within the base map.
pub proof fn lemma_overlay_reach(
    e: Map<(u64, u64), u64>,
    vs: u64,
    ms: Set<u64>,
    v: u64,
    t: int,
)
    requires
        avoids(e, vs),
        !ms.contains(vs),
        v != vs,
        t >= 0,
    ensures
        reach_within(overlaid(e, vs, ms), vs, v, t) <==> exists|m: u64| #[trigger] ms.contains(m)
            && reach_within(e, m, v, t),
{
    let over = overlaid(e, vs, ms);
    if reach_within(over, vs, v, t) {
        let p = choose|p: Seq<u64>|
            #[trigger] is_path(over, p) && p.first() == vs && p.last() == v && path_cost(over, p)
                <= t;
        lemma_strip_virtual_source(e, vs, ms, p);
        let m = choose|m: u64| #[trigger] ms.contains(m) && reach_within(
            e,
            m,
            v,
            path_cost(over, p),
        );
        lemma_reach_monotone(e, m, v, path_cost(over, p), t);
        assert(ms.contains(m) && reach_within(e, m, v, t));
    }
    if exists|m: u64| #[trigger] ms.contains(m) && reach_within(e, m, v, t) {
        let m = choose|m: u64| #[trigger] ms.contains(m) && reach_within(e, m, v, t);
        let p = choose|p: Seq<u64>|
            #[trigger] is_path(e, p) && p.first() == m && p.last() == v && path_cost(e, p) <= t;
        lemma_overlaid_keeps_base(e, vs, ms);
        lemma_path_same_edges(e, over, p);
        let q = seq![vs] + p;
        assert(q.first() == vs && q.last() == v);
        assert(q.drop_first() =~= p);
        assert(over.contains_key((vs, m))) by {
            assert(m != vs);
        }
        assert forall|i: int| 0 <= i < q.len() - 1 implies has_edge(over, #[trigger] q[i], q[i
            + 1]) by {
            if i == 0 {
                assert(q[0] == vs && q[1] == p[0]);
                assert(has_edge(over, vs, m));
            } else {
                assert(q[i] == p[i - 1] && q[i + 1] == p[i]);
                assert(has_edge(over, p[i - 1], p[i]));
            }
        }
        assert(is_path(over, q));
        assert(over[(vs, m)] == 0);
        assert(q[0] == vs && q[1] == m);
        assert(path_cost(over, q) == over[(vs, m)] + path_cost(over, q.drop_first()));
        assert(path_cost(over, q) <= t);
        assert(reach_within(over, vs, v, t));
    }
}

} // verus!
