use min_city::city::{create_graph, compute_t_minute_city, t_minute_city};
use min_city::errors::BuildError;
use min_city::labels::LabelIndex;
use min_city::records::{max_id, Edge, Node};

fn node(id: u64, labels: &[&str]) -> Node {
    Node { id, labels: labels.iter().map(|s| String::from(*s)).collect() }
}

fn edge(source: u64, target: u64, weight: u64) -> Edge {
    Edge { source, target, weight }
}

fn chain_records() -> Vec<Node> {
    vec![node(1, &["A"]), node(2, &[]), node(3, &[]), node(4, &["B"])]
}

fn chain_edges() -> Vec<Edge> {
    vec![edge(1, 2, 5), edge(2, 3, 5), edge(3, 4, 5)]
}

#[test]
fn chain_threshold_twenty_has_all_four() {
    let r = t_minute_city(&chain_records(), &chain_edges(), 20).unwrap();
    assert_eq!(r, vec![1, 2, 3, 4]);
}

#[test]
fn chain_threshold_fifteen_has_all_four() {
    let r = t_minute_city(&chain_records(), &chain_edges(), 15).unwrap();
    assert_eq!(r, vec![1, 2, 3, 4]);
}

#[test]
fn chain_threshold_ten_has_middle_only() {
    // The endpoints are 15 apart, so neither 1 nor 4 sees the far
    // category; 2 and 3 lie within 10 of both.
    let r = t_minute_city(&chain_records(), &chain_edges(), 10).unwrap();
    assert_eq!(r, vec![2, 3]);
}

#[test]
fn chain_threshold_nine_is_empty() {
    let r = t_minute_city(&chain_records(), &chain_edges(), 9).unwrap();
    assert_eq!(r, Vec::<u64>::new());
}

#[test]
fn larger_threshold_keeps_members() {
    let lo = t_minute_city(&chain_records(), &chain_edges(), 10).unwrap();
    let hi = t_minute_city(&chain_records(), &chain_edges(), 15).unwrap();
    for v in &lo {
        assert!(hi.contains(v));
    }
}

#[test]
fn zero_threshold_single_category_keeps_its_members() {
    let records = vec![node(1, &["A"]), node(2, &["A"]), node(3, &[])];
    let edges = vec![edge(1, 2, 1), edge(2, 3, 1)];
    let r = t_minute_city(&records, &edges, 0).unwrap();
    assert_eq!(r, vec![1, 2]);
}

#[test]
fn zero_threshold_disjoint_categories_is_empty() {
    let records = vec![node(1, &["A"]), node(2, &["B"])];
    let edges = vec![edge(1, 2, 1)];
    let r = t_minute_city(&records, &edges, 0).unwrap();
    assert_eq!(r, Vec::<u64>::new());
}

#[test]
fn zero_threshold_crosses_zero_weight_edges() {
    // A zero-weight connection makes its far endpoint reachable even at
    // threshold zero.
    let records = vec![node(1, &["A"]), node(2, &[])];
    let edges = vec![edge(1, 2, 0)];
    let r = t_minute_city(&records, &edges, 0).unwrap();
    assert_eq!(r, vec![1, 2]);
}

#[test]
fn zero_threshold_keeps_a_location_carrying_every_category() {
    // Location 1 carries both categories, so it alone survives at
    // threshold zero.
    let records = vec![node(1, &["A", "B"]), node(2, &["A"]), node(3, &["B"])];
    let edges = vec![edge(1, 2, 1), edge(2, 3, 1)];
    let r = t_minute_city(&records, &edges, 0).unwrap();
    assert_eq!(r, vec![1]);
}

#[test]
fn multi_label_location_serves_both_categories() {
    // Location 3 is the sole carrier of both categories: everything
    // within 7 of it is in the city.
    let records = vec![node(1, &[]), node(2, &[]), node(3, &["A", "B"])];
    let edges = vec![edge(1, 2, 4), edge(2, 3, 4)];
    let r = t_minute_city(&records, &edges, 7).unwrap();
    assert_eq!(r, vec![2, 3]);
}

#[test]
fn no_categories_means_every_location_qualifies() {
    let records = vec![node(1, &[]), node(2, &[])];
    let edges = vec![edge(1, 2, 3)];
    let r = t_minute_city(&records, &edges, 5).unwrap();
    assert_eq!(r, vec![1, 2]);
}

#[test]
fn no_records_means_empty_result() {
    let r = t_minute_city(&Vec::new(), &Vec::new(), 5).unwrap();
    assert_eq!(r, Vec::<u64>::new());
}

#[test]
fn unreachable_category_empties_the_city() {
    // Location 3 carries the only "B" and has no connections at all.
    let records = vec![node(1, &["A"]), node(2, &[]), node(3, &["B"])];
    let edges = vec![edge(1, 2, 2)];
    let r = t_minute_city(&records, &edges, 100).unwrap();
    assert_eq!(r, Vec::<u64>::new());
}

#[test]
fn unknown_location_in_edge_is_rejected() {
    let records = vec![node(1, &[])];
    let edges = vec![edge(1, 99, 4)];
    let r = t_minute_city(&records, &edges, 5);
    assert_eq!(r, Err(BuildError::UnknownLocation(99)));
}

#[test]
fn duplicate_identifier_is_rejected() {
    let records = vec![node(7, &["A"]), node(7, &["B"])];
    let r = t_minute_city(&records, &Vec::new(), 5);
    assert_eq!(r, Err(BuildError::DuplicateLocation(7)));
}

#[test]
fn running_twice_gives_the_same_result() {
    let r1 = t_minute_city(&chain_records(), &chain_edges(), 12).unwrap();
    let r2 = t_minute_city(&chain_records(), &chain_edges(), 12).unwrap();
    assert_eq!(r1, r2);
}

#[test]
fn orchestrator_restores_the_graph() {
    let records = chain_records();
    let edges = chain_edges();
    let mut g = create_graph(&records, &edges).unwrap();
    let li = LabelIndex::build(&records);
    let ids: Vec<u64> = vec![1, 2, 3, 4];
    let top = max_id(&records);
    let nodes_before = g.node_count();
    let edges_before = g.edge_count();
    let r1 = compute_t_minute_city(&mut g, &li, &ids, top, 20);
    assert_eq!(g.node_count(), nodes_before);
    assert_eq!(g.edge_count(), edges_before);
    let r2 = compute_t_minute_city(&mut g, &li, &ids, top, 20);
    assert_eq!(g.node_count(), nodes_before);
    assert_eq!(g.edge_count(), edges_before);
    assert_eq!(r1, vec![1, 2, 3, 4]);
    assert_eq!(r1, r2);
}
