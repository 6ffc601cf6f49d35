use min_city::accumulator::Accumulator;
use min_city::city::create_graph;
use min_city::errors::BuildError;
use min_city::graph::GraphStore;
use min_city::labels::LabelIndex;
use min_city::records::{max_id, Edge, Node};
use min_city::search::dijkstra;

fn node(id: u64, labels: &[&str]) -> Node {
    Node { id, labels: labels.iter().map(|s| String::from(*s)).collect() }
}

fn edge(source: u64, target: u64, weight: u64) -> Edge {
    Edge { source, target, weight }
}

#[test]
fn graph_store_counts_and_neighbors() {
    let mut g = GraphStore::new();
    assert_eq!(g.node_count(), 0);
    assert_eq!(g.edge_count(), 0);
    g.add_node(1);
    g.add_node(2);
    g.add_node(3);
    assert!(g.contains(2));
    assert!(!g.contains(9));
    assert_eq!(g.add_edge(1, 2, 9), Ok(()));
    assert_eq!(g.add_edge(2, 3, 7), Ok(()));
    assert_eq!(g.node_count(), 3);
    assert_eq!(g.edge_count(), 2);
    let mut n1 = g.neighbors(2);
    n1.sort();
    assert_eq!(n1, vec![(1, 9), (3, 7)]);
}

#[test]
fn graph_store_rejects_unknown_endpoints() {
    let mut g = GraphStore::new();
    g.add_node(1);
    assert_eq!(g.add_edge(1, 5, 2), Err(BuildError::UnknownLocation(5)));
    assert_eq!(g.add_edge(6, 1, 2), Err(BuildError::UnknownLocation(6)));
    assert_eq!(g.node_count(), 1);
    assert_eq!(g.edge_count(), 0);
}

#[test]
fn graph_store_updates_edge_weight() {
    let mut g = GraphStore::new();
    g.add_node(1);
    g.add_node(2);
    assert_eq!(g.add_edge(1, 2, 9), Ok(()));
    assert_eq!(g.add_edge(2, 1, 4), Ok(()));
    assert_eq!(g.edge_count(), 1);
    assert_eq!(g.neighbors(1), vec![(2, 4)]);
}

#[test]
fn graph_store_removes_incident_edges() {
    let mut g = GraphStore::new();
    g.add_node(1);
    g.add_node(2);
    g.add_node(3);
    assert_eq!(g.add_edge(1, 2, 1), Ok(()));
    assert_eq!(g.add_edge(2, 3, 1), Ok(()));
    assert!(g.remove_node(2));
    assert_eq!(g.node_count(), 2);
    assert_eq!(g.edge_count(), 0);
    assert_eq!(g.neighbors(1), Vec::<(u64, u64)>::new());
    assert!(!g.remove_node(2));
}

#[test]
fn label_index_groups_by_first_appearance() {
    let records = vec![node(1, &["A"]), node(2, &["B"]), node(3, &["A"]), node(4, &[])];
    let li = LabelIndex::build(&records);
    assert_eq!(li.count(), 2);
    assert_eq!(li.category(0).as_str(), "A");
    assert_eq!(li.category(1).as_str(), "B");
    assert_eq!(li.locations_for(0), &vec![1, 3]);
    assert_eq!(li.locations_for(1), &vec![2]);
}

#[test]
fn label_index_handles_several_labels_per_record() {
    let records = vec![node(1, &["A", "B"]), node(2, &["B", "C", "B"]), node(3, &["A"])];
    let li = LabelIndex::build(&records);
    assert_eq!(li.count(), 3);
    assert_eq!(li.category(0).as_str(), "A");
    assert_eq!(li.category(1).as_str(), "B");
    assert_eq!(li.category(2).as_str(), "C");
    assert_eq!(li.locations_for(0), &vec![1, 3]);
    assert_eq!(li.locations_for(1), &vec![1, 2]);
    assert_eq!(li.locations_for(2), &vec![2]);
}

#[test]
fn max_id_scans_all_records() {
    assert_eq!(max_id(&Vec::new()), 0);
    let records = vec![node(3, &[]), node(11, &["A"]), node(5, &[])];
    assert_eq!(max_id(&records), 11);
}

#[test]
fn accumulator_reports_fully_marked_rows() {
    let ids: Vec<u64> = vec![5, 6];
    let mut acc = Accumulator::new(&ids, 2);
    assert_eq!(acc.fully_reached(), Vec::<u64>::new());
    acc.mark(5, 0);
    acc.mark(5, 1);
    acc.mark(6, 0);
    assert_eq!(acc.fully_reached(), vec![5]);
    acc.mark(5, 0);
    assert_eq!(acc.fully_reached(), vec![5]);
    acc.mark(6, 1);
    assert_eq!(acc.fully_reached(), vec![5, 6]);
}

#[test]
fn dijkstra_marks_within_threshold_excluding_start() {
    let records = vec![node(1, &[]), node(2, &[]), node(3, &[]), node(4, &[])];
    let edges = vec![edge(1, 2, 5), edge(2, 3, 5), edge(3, 4, 5)];
    let g = create_graph(&records, &edges).unwrap();
    let ids: Vec<u64> = vec![1, 2, 3, 4];
    let mut acc = Accumulator::new(&ids, 1);
    dijkstra(&g, &mut acc, 1, 10, 0);
    assert_eq!(acc.fully_reached(), vec![2, 3]);
}

#[test]
fn dijkstra_takes_the_cheaper_route() {
    // Two routes from 1 to 4: direct with weight 9, and around via 2 and 3
    // with total weight 6.
    let records = vec![node(1, &[]), node(2, &[]), node(3, &[]), node(4, &[])];
    let edges = vec![edge(1, 4, 9), edge(1, 2, 2), edge(2, 3, 2), edge(3, 4, 2)];
    let g = create_graph(&records, &edges).unwrap();
    let ids: Vec<u64> = vec![1, 2, 3, 4];
    let mut acc = Accumulator::new(&ids, 1);
    dijkstra(&g, &mut acc, 1, 6, 0);
    assert_eq!(acc.fully_reached(), vec![2, 3, 4]);
}

#[test]
fn self_loops_are_kept_and_harmless() {
    let mut g = GraphStore::new();
    g.add_node(1);
    g.add_node(2);
    assert_eq!(g.add_edge(1, 1, 3), Ok(()));
    assert_eq!(g.add_edge(1, 2, 4), Ok(()));
    assert_eq!(g.edge_count(), 2);
    let ids: Vec<u64> = vec![1, 2];
    let mut acc = Accumulator::new(&ids, 1);
    dijkstra(&g, &mut acc, 1, 10, 0);
    assert_eq!(acc.fully_reached(), vec![2]);
}
