//! The graph store: an undirected, weighted graph over `u64` location
//! identifiers, held in a `petgraph` adjacency map.
//!
//! The contents of the `petgraph` structure are named by two spec
//! functions, `graph_nodes` and `graph_adj`; trusted wrappers around the
//! handful of `petgraph` methods the algorithm calls state, over those
//! names, what each call does.  Everything above the wrappers — the
//! well-formedness invariant, the rejection of edges naming unknown
//! locations — is verified.

use vstd::prelude::*;
use petgraph::graphmap::UnGraphMap;
use crate::errors::BuildError;
use crate::paths::has_edge;

verus! {

#[verifier::external_type_specification]
#[verifier::external_body]
#[verifier::reject_recursive_types(N)]
#[verifier::reject_recursive_types(E)]
#[verifier::reject_recursive_types(Ty)]
#[verifier::reject_recursive_types(S)]
pub struct ExGraphMap<N, E, Ty, S>(petgraph::graphmap::GraphMap<N, E, Ty, S>) where
    S: core::hash::BuildHasher;

#[verifier::external_type_specification]
#[verifier::external_body]
pub struct ExUndirected(petgraph::Undirected);

/// The set of nodes a `petgraph` graph holds.
pub uninterp spec fn graph_nodes(g: UnGraphMap<u64, u64>) -> Set<u64>;

/// The adjacency a `petgraph` graph holds, as a symmetric map: an
/// undirected edge between `a` and `b` of weight `w` appears both as
/// `(a, b)` and as `(b, a)`.
pub uninterp spec fn graph_adj(g: UnGraphMap<u64, u64>) -> Map<(u64, u64), u64>;

/// The node set of a graph that holds no locations.
pub open spec fn no_nodes() -> Set<u64> {
    Set::empty()
}

/// The adjacency of a graph that holds no edges.
pub open spec fn no_edges() -> Map<(u64, u64), u64> {
    Map::empty()
}

/// The number of undirected edges of a symmetric adjacency map: each edge
/// is counted once, under its ordered key.
pub open spec fn undirected_edge_count(e: Map<(u64, u64), u64>) -> nat {
    e.dom().filter(|pr: (u64, u64)| pr.0 <= pr.1).len()
}

/// Relies on petgraph's `UnGraphMap::new`: a graph with no nodes and no
/// edges.
#[verifier::external_body]
fn graphmap_new() -> (r: UnGraphMap<u64, u64>)
    ensures
        graph_nodes(r) == no_nodes(),
        graph_adj(r) == no_edges(),
{
    UnGraphMap::new()
}

/// Relies on petgraph's `GraphMap::add_node`: inserts the node and leaves
/// the edges alone.
#[verifier::external_body]
fn graphmap_add_node(g: &mut UnGraphMap<u64, u64>, n: u64)
    ensures
        graph_nodes(*final(g)) == graph_nodes(*old(g)).insert(n),
        graph_adj(*final(g)) == graph_adj(*old(g)),
{
    g.add_node(n);
}

/// Relies on petgraph's `GraphMap::add_edge`: stores the undirected edge
/// (one entry per direction of the symmetric model), inserts endpoints that
/// are not yet nodes, and replaces the weight of an edge already present.
#[verifier::external_body]
fn graphmap_add_edge(g: &mut UnGraphMap<u64, u64>, a: u64, b: u64, w: u64)
    ensures
        graph_nodes(*final(g)) == graph_nodes(*old(g)).insert(a).insert(b),
        graph_adj(*final(g)) == graph_adj(*old(g)).insert((a, b), w).insert((b, a), w),
{
    g.add_edge(a, b, w);
}

/// Relies on petgraph's `GraphMap::remove_node`: removes the node and every
/// edge incident to it, and reports whether the node was present.
#[verifier::external_body]
fn graphmap_remove_node(g: &mut UnGraphMap<u64, u64>, n: u64) -> (r: bool)
    ensures
        graph_nodes(*final(g)) == graph_nodes(*old(g)).remove(n),
        graph_adj(*final(g)) == graph_adj(*old(g)).remove_keys(
            Set::new(|pr: (u64, u64)| pr.0 == n || pr.1 == n),
        ),
        r == graph_nodes(*old(g)).contains(n),
{
    g.remove_node(n)
}

/// Relies on petgraph's `GraphMap::contains_node`.
#[verifier::external_body]
fn graphmap_contains_node(g: &UnGraphMap<u64, u64>, n: u64) -> (r: bool)
    ensures
        r == graph_nodes(*g).contains(n),
{
    g.contains_node(n)
}

/// Relies on petgraph's `GraphMap::node_count`: the number of nodes.
#[verifier::external_body]
fn graphmap_node_count(g: &UnGraphMap<u64, u64>) -> (r: usize)
    ensures
        r == graph_nodes(*g).len(),
{
    g.node_count()
}

/// Relies on petgraph's `GraphMap::edge_count`: the number of undirected
/// edges, each counted once.
#[verifier::external_body]
fn graphmap_edge_count(g: &UnGraphMap<u64, u64>) -> (r: usize)
    ensures
        r == undirected_edge_count(graph_adj(*g)),
{
    g.edge_count()
}

/// Relies on petgraph's `GraphMap::edges`: for every edge incident to `n`,
/// the far endpoint and the weight, each incident neighbor exactly once, in
/// no promised order.
#[verifier::external_body]
fn graphmap_neighbors(g: &UnGraphMap<u64, u64>, n: u64) -> (r: Vec<(u64, u64)>)
    ensures
        forall|j: int| 0 <= j < r@.len() ==> has_edge(graph_adj(*g), n, (#[trigger] r@[j]).0)
            && graph_adj(*g)[(n, r@[j].0)] == r@[j].1,
        forall|m: u64| #[trigger] has_edge(graph_adj(*g), n, m) ==> exists|j: int|
            0 <= j < r@.len() && (#[trigger] r@[j]).0 == m,
        forall|j: int, k: int| 0 <= j < k < r@.len() ==> (#[trigger] r@[j]).0 != (#[trigger] r@[k]).0,
{
    g.edges(n).map(|edge: (u64, u64, &u64)| (edge.1, *edge.2)).collect()
}

/// An undirected, weighted location graph.  Its abstract value is a finite
/// node set together with a symmetric adjacency map whose edges join nodes
/// of the graph.
pub struct GraphStore {
    g: UnGraphMap<u64, u64>,
}

impl GraphStore {
    /// The set of locations the graph holds.
    pub closed spec fn nodes(self) -> Set<u64> {
        graph_nodes(self.g)
    }

    /// The symmetric adjacency map of the graph.
    pub closed spec fn adj(self) -> Map<(u64, u64), u64> {
        graph_adj(self.g)
    }

    /// Well-formedness: finitely many nodes, every edge joins two nodes,
    /// and adjacency is symmetric.
    pub open spec fn wf(self) -> bool {
        &&& self.nodes().finite()
        &&& forall|a: u64, b: u64| #[trigger]
            has_edge(self.adj(), a, b) ==> self.nodes().contains(a) && self.nodes().contains(b)
        &&& forall|a: u64, b: u64| #[trigger]
            has_edge(self.adj(), a, b) ==> has_edge(self.adj(), b, a) && self.adj()[(b, a)]
                == self.adj()[(a, b)]
    }

    /// An empty graph.
    pub fn new() -> (r: GraphStore)
        ensures
            r.wf(),
            r.nodes() == no_nodes(),
            r.adj() == no_edges(),
    {
        let g = graphmap_new();
        let r = GraphStore { g };
        proof {
            assert forall|a: u64, b: u64| #[trigger] has_edge(r.adj(), a, b) implies false by {
                assert(!Map::<(u64, u64), u64>::empty().contains_key((a, b)));
            }
        }
        r
    }

    /// Insert a location.  Inserting one already present changes nothing.
    pub fn add_node(&mut self, n: u64)
        requires
            old(self).wf(),
        ensures
            final(self).wf(),
            final(self).nodes() == old(self).nodes().insert(n),
            final(self).adj() == old(self).adj(),
    {
        graphmap_add_node(&mut self.g, n);
        proof {
            assert(self.nodes().finite());
            assert forall|a: u64, b: u64| #[trigger] has_edge(self.adj(), a, b) implies self
                .nodes()
                .contains(a) && self.nodes().contains(b) && has_edge(self.adj(), b, a)
                && self.adj()[(b, a)] == self.adj()[(a, b)] by {
                assert(has_edge(old(self).adj(), a, b));
            }
        }
    }

    /// Whether the graph holds the location `n`.
    pub fn contains(&self, n: u64) -> (r: bool)
        ensures
            r == self.nodes().contains(n),
    {
        graphmap_contains_node(&self.g, n)
    }

    /// Insert an undirected edge of weight `w` between two known locations.
    /// An edge referencing an unknown location is rejected; the graph is
    /// then unchanged.  Re-inserting an edge replaces its weight.
    pub fn add_edge(&mut self, a: u64, b: u64, w: u64) -> (r: Result<(), BuildError>)
        requires
            old(self).wf(),
        ensures
            final(self).wf(),
            r is Ok <==> old(self).nodes().contains(a) && old(self).nodes().contains(b),
            r is Ok ==> final(self).nodes() == old(self).nodes() && final(self).adj() == old(
                self,
            ).adj().insert((a, b), w).insert((b, a), w),
            !old(self).nodes().contains(a) ==> (r matches Err(e)
                && e == BuildError::UnknownLocation(a)),
            old(self).nodes().contains(a) && !old(self).nodes().contains(b) ==> (r matches Err(e)
                && e == BuildError::UnknownLocation(b)),
            r is Err ==> *final(self) == *old(self),
    {
        if !graphmap_contains_node(&self.g, a) {
            return Err(BuildError::UnknownLocation(a));
        }
        if !graphmap_contains_node(&self.g, b) {
            return Err(BuildError::UnknownLocation(b));
        }
        graphmap_add_edge(&mut self.g, a, b, w);
        proof {
            let old_nodes = old(self).nodes();
            let old_adj = old(self).adj();
            assert(self.nodes() =~= old_nodes);
            let adj2 = self.adj();
            assert forall|x: u64, y: u64| #[trigger] has_edge(adj2, x, y) implies self
                .nodes()
                .contains(x) && self.nodes().contains(y) && has_edge(adj2, y, x) && adj2[(y, x)]
                == adj2[(x, y)] by {
                if (x, y) == (a, b) || (x, y) == (b, a) {
                    assert(adj2[(a, b)] == w && adj2[(b, a)] == w);
                } else {
                    assert(has_edge(old_adj, x, y));
                    assert((y, x) != (a, b) && (y, x) != (b, a));
                }
            }
        }
        Ok(())
    }

    /// Remove a location and every edge incident to it; report whether the
    /// location was present.
    pub fn remove_node(&mut self, n: u64) -> (r: bool)
        requires
            old(self).wf(),
        ensures
            final(self).wf(),
            final(self).nodes() == old(self).nodes().remove(n),
            final(self).adj() == old(self).adj().remove_keys(
                Set::new(|pr: (u64, u64)| pr.0 == n || pr.1 == n),
            ),
            r == old(self).nodes().contains(n),
    {
        let r = graphmap_remove_node(&mut self.g, n);
        proof {
            let old_adj = old(self).adj();
            let adj2 = self.adj();
            assert forall|x: u64, y: u64| #[trigger] has_edge(adj2, x, y) implies self
                .nodes()
                .contains(x) && self.nodes().contains(y) && has_edge(adj2, y, x) && adj2[(y, x)]
                == adj2[(x, y)] by {
                assert(has_edge(old_adj, x, y));
                assert(x != n && y != n);
                assert(has_edge(old_adj, y, x));
                assert(adj2.contains_key((y, x)));
            }
        }
        r
    }

    /// The number of locations.
    pub fn node_count(&self) -> (r: usize)
        ensures
            r == self.nodes().len(),
    {
        graphmap_node_count(&self.g)
    }

    /// The number of undirected edges.
    pub fn edge_count(&self) -> (r: usize)
        ensures
            r == undirected_edge_count(self.adj()),
    {
        graphmap_edge_count(&self.g)
    }

    /// The neighbors of `n` with the weights of the joining edges: exactly
    /// the far endpoints of the edges incident to `n`, each once, in no
    /// promised order.
    pub fn neighbors(&self, n: u64) -> (r: Vec<(u64, u64)>)
        ensures
            forall|j: int| 0 <= j < r@.len() ==> has_edge(self.adj(), n, (#[trigger] r@[j]).0)
                && self.adj()[(n, r@[j].0)] == r@[j].1,
            forall|m: u64| #[trigger] has_edge(self.adj(), n, m) ==> exists|j: int|
                0 <= j < r@.len() && (#[trigger] r@[j]).0 == m,
            forall|j: int, k: int| 0 <= j < k < r@.len() ==> (#[trigger] r@[j]).0 != (
            #[trigger] r@[k]).0,
    {
        graphmap_neighbors(&self.g, n)
    }
}

} // verus!
