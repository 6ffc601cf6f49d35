//! Paths through a weighted, undirected adjacency map, and their costs.
//!
//! The adjacency of the whole graph is modelled as a symmetric map from
//! ordered pairs of location identifiers to edge weights: an undirected
//! edge between `a` and `b` of weight `w` appears both as `(a, b)` and as
//! `(b, a)`.  Everything the search promises is stated in terms of the
//! existence of paths through that map and of their total cost.

use vstd::prelude::*;

verus! {

/// The adjacency map `e` holds an edge from `a` to `b`.
pub open spec fn has_edge(e: Map<(u64, u64), u64>, a: u64, b: u64) -> bool {
    e.contains_key((a, b))
}

/// A walk through the adjacency map `e`: at least one node, and an edge of
/// `e` between every two consecutive nodes.
pub open spec fn is_path(e: Map<(u64, u64), u64>, p: Seq<u64>) -> bool {
    &&& p.len() >= 1
    &&& forall|i: int| 0 <= i < p.len() - 1 ==> has_edge(e, #[trigger] p[i], p[i + 1])
}

/// The total weight of the consecutive edges of `p` under `e`.
pub open spec fn path_cost(e: Map<(u64, u64), u64>, p: Seq<u64>) -> int
    decreases p.len(),
{
    if p.len() <= 1 {
        0
    } else {
        e[(p[0], p[1])] + path_cost(e, p.drop_first())
    }
}

/// Some path leads from `a` to `b` and costs exactly `c`.
pub open spec fn costed_path(e: Map<(u64, u64), u64>, a: u64, b: u64, c: int) -> bool {
    exists|p: Seq<u64>|
        #[trigger] is_path(e, p) && p.first() == a && p.last() == b && path_cost(e, p) == c
}

/// `b` lies within shortest-path distance `t` of `a` under `e`.
pub open spec fn reach_within(e: Map<(u64, u64), u64>, a: u64, b: u64, t: int) -> bool {
    exists|p: Seq<u64>|
        #[trigger] is_path(e, p) && p.first() == a && p.last() == b && path_cost(e, p) <= t
}

/// Edge weights are unsigned, so every path cost is nonnegative.
pub proof fn lemma_path_cost_nonneg(e: Map<(u64, u64), u64>, p: Seq<u64>)
    ensures
        path_cost(e, p) >= 0,
    decreases p.len(),
{
    if p.len() > 1 {
        lemma_path_cost_nonneg(e, p.drop_first());
    }
}

/// Appending a node adds the weight of the closing edge to the cost.
pub proof fn lemma_path_cost_push(e: Map<(u64, u64), u64>, p: Seq<u64>, x: u64)
    requires
        p.len() >= 1,
    ensures
        path_cost(e, p.push(x)) == path_cost(e, p) + e[(p.last(), x)],
    decreases p.len(),
{
    let q = p.push(x);
    if p.len() == 1 {
        assert(q.drop_first() =~= seq![x]);
        assert(q[0] == p[0] && q[1] == x);
        assert(path_cost(e, q) == e[(p[0], x)] + path_cost(e, seq![x]));
    } else {
        lemma_path_cost_push(e, p.drop_first(), x);
        assert(q.drop_first() =~= p.drop_first().push(x));
        assert(q[0] == p[0] && q[1] == p[1]);
        assert(p.drop_first().last() == p.last());
        assert(path_cost(e, q) == e[(p[0], p[1])] + path_cost(e, p.drop_first().push(x)));
    }
}

/// A path extended along an edge of `e` is still a path.
pub proof fn lemma_is_path_push(e: Map<(u64, u64), u64>, p: Seq<u64>, x: u64)
    requires
        is_path(e, p),
        has_edge(e, p.last(), x),
    ensures
        is_path(e, p.push(x)),
{
    let q = p.push(x);
    assert forall|i: int| 0 <= i < q.len() - 1 implies #[trigger] has_edge(e, q[i], q[i + 1]) by {
        if i < p.len() - 1 {
            assert(has_edge(e, p[i], p[i + 1]));
            assert(q[i] == p[i] && q[i + 1] == p[i + 1]);
        } else {
            assert(q[i] == p.last() && q[i + 1] == x);
        }
    }
}

/// The one-node path makes every node reachable from itself at cost zero.
pub proof fn lemma_costed_path_trivial(e: Map<(u64, u64), u64>, v: u64)
    ensures
        costed_path(e, v, v, 0),
{
    let p = seq![v];
    assert(is_path(e, p));
    assert(p.first() == v && p.last() == v);
    assert(path_cost(e, p) == 0);
}

/// A costed path from `a` to `u` extends along an edge `(u, x)` to a costed
/// path from `a` to `x`.
pub proof fn lemma_costed_path_step(e: Map<(u64, u64), u64>, a: u64, u: u64, x: u64, c: int)
    requires
        costed_path(e, a, u, c),
        has_edge(e, u, x),
    ensures
        costed_path(e, a, x, c + e[(u, x)]),
{
    let p = choose|p: Seq<u64>|
        #[trigger] is_path(e, p) && p.first() == a && p.last() == u && path_cost(e, p) == c;
    lemma_is_path_push(e, p, x);
    lemma_path_cost_push(e, p, x);
    let q = p.push(x);
    assert(is_path(e, q) && q.first() == a && q.last() == x && path_cost(e, q) == c + e[(u, x)]);
}

/// A path of exact cost `c <= t` witnesses reachability within `t`.
pub proof fn lemma_costed_to_reach(e: Map<(u64, u64), u64>, a: u64, b: u64, c: int, t: int)
    requires
        costed_path(e, a, b, c),
        c <= t,
    ensures
        reach_within(e, a, b, t),
{
    let p = choose|p: Seq<u64>|
        #[trigger] is_path(e, p) && p.first() == a && p.last() == b && path_cost(e, p) == c;
    assert(is_path(e, p) && p.first() == a && p.last() == b && path_cost(e, p) <= t);
}

/// Reachability within a bound holds within every larger bound.
pub proof fn lemma_reach_monotone(e: Map<(u64, u64), u64>, a: u64, b: u64, t1: int, t2: int)
    requires
        reach_within(e, a, b, t1),
        t1 <= t2,
    ensures
        reach_within(e, a, b, t2),
{
    let p = choose|p: Seq<u64>|
        #[trigger] is_path(e, p) && p.first() == a && p.last() == b && path_cost(e, p) <= t1;
    assert(is_path(e, p) && p.first() == a && p.last() == b && path_cost(e, p) <= t2);
}

/// A contiguous part of a path is a path.
pub proof fn lemma_is_path_subrange(e: Map<(u64, u64), u64>, p: Seq<u64>, a: int, b: int)
    requires
        is_path(e, p),
        0 <= a < b <= p.len(),
    ensures
        is_path(e, p.subrange(a, b)),
{
    let q = p.subrange(a, b);
    assert forall|i: int| 0 <= i < q.len() - 1 implies #[trigger] has_edge(e, q[i], q[i + 1]) by {
        assert(has_edge(e, p[a + i], p[a + i + 1]));
        assert(q[i] == p[a + i] && q[i + 1] == p[a + i + 1]);
    }
}

/// A path's cost splits at any of its nodes into the cost of the part up to
/// that node and the cost of the part from it.
pub proof fn lemma_path_cost_split(e: Map<(u64, u64), u64>, p: Seq<u64>, j: int)
    requires
        0 <= j < p.len(),
    ensures
        path_cost(e, p) == path_cost(e, p.subrange(0, j + 1)) + path_cost(
            e,
            p.subrange(j, p.len() as int),
        ),
    decreases j,
{
    if j == 0 {
        assert(path_cost(e, p.subrange(0, 1)) == 0);
        assert(p.subrange(0, p.len() as int) =~= p);
    } else {
        let d = p.drop_first();
        lemma_path_cost_split(e, d, j - 1);
        assert(d.subrange(0, j) =~= p.subrange(1, j + 1));
        assert(d.subrange(j - 1, d.len() as int) =~= p.subrange(j, p.len() as int));
        let q = p.subrange(0, j + 1);
        assert(q.drop_first() =~= p.subrange(1, j + 1));
        assert(q[0] == p[0] && q[1] == p[1]);
        assert(path_cost(e, q) == e[(p[0], p[1])] + path_cost(e, p.subrange(1, j + 1)));
        assert(path_cost(e, p) == e[(p[0], p[1])] + path_cost(e, d));
    }
}

/// Dropping a prefix of a path cannot increase its cost.
pub proof fn lemma_suffix_cost_le(e: Map<(u64, u64), u64>, p: Seq<u64>, j: int)
    requires
        0 <= j < p.len(),
    ensures
        path_cost(e, p.subrange(j, p.len() as int)) <= path_cost(e, p),
{
    lemma_path_cost_split(e, p, j);
    lemma_path_cost_nonneg(e, p.subrange(0, j + 1));
}

/// Dropping a suffix of a path cannot increase its cost.
pub proof fn lemma_prefix_cost_le(e: Map<(u64, u64), u64>, p: Seq<u64>, j: int)
    requires
        0 <= j < p.len(),
    ensures
        path_cost(e, p.subrange(0, j + 1)) <= path_cost(e, p),
{
    lemma_path_cost_split(e, p, j);
    lemma_path_cost_nonneg(e, p.subrange(j, p.len() as int));
}

/// Extending the prefix of a path by one node adds the cost of one edge.
pub proof fn lemma_prefix_cost_step(e: Map<(u64, u64), u64>, p: Seq<u64>, i: int)
    requires
        0 <= i < p.len() - 1,
    ensures
        path_cost(e, p.subrange(0, i + 2)) == path_cost(e, p.subrange(0, i + 1)) + e[(p[i], p[i
            + 1])],
{
    let q = p.subrange(0, i + 1);
    assert(p.subrange(0, i + 2) =~= q.push(p[i + 1]));
    lemma_path_cost_push(e, q, p[i + 1]);
    assert(q.last() == p[i]);
}

/// A path through `e1` is a path of the same cost through any map that
/// agrees with `e1` on all of `e1`'s edges.
pub proof fn lemma_path_same_edges(
    e1: Map<(u64, u64), u64>,
    e2: Map<(u64, u64), u64>,
    p: Seq<u64>,
)
    requires
        is_path(e1, p),
        forall|a: u64, b: u64| #[trigger]
            has_edge(e1, a, b) ==> has_edge(e2, a, b) && e2[(a, b)] == e1[(a, b)],
    ensures
        is_path(e2, p),
        path_cost(e2, p) == path_cost(e1, p),
    decreases p.len(),
{
    if p.len() > 1 {
        assert(has_edge(e1, p[0], p[1]));
        lemma_is_path_subrange(e1, p, 1, p.len() as int);
        assert(p.subrange(1, p.len() as int) =~= p.drop_first());
        lemma_path_same_edges(e1, e2, p.drop_first());
        assert(path_cost(e1, p) == e1[(p[0], p[1])] + path_cost(e1, p.drop_first()));
        assert(path_cost(e2, p) == e2[(p[0], p[1])] + path_cost(e2, p.drop_first()));
    }
    assert forall|i: int| 0 <= i < p.len() - 1 implies #[trigger] has_edge(e2, p[i], p[i + 1]) by {
        assert(has_edge(e1, p[i], p[i + 1]));
    }
}

} // verus!
