use graphkit::graph::{Error, Graph};
use graphkit::hashmap_graph::HashMapGraph;

fn sample_graph() -> HashMapGraph {
    let mut g = HashMapGraph::new();
    for id in [1, 2, 3] {
        g.add_node(id).unwrap();
    }
    g.add_edge(1, 2).unwrap();
    g.add_edge(2, 3).unwrap();
    g
}

#[test]
fn store_counts_match_inserts() {
    let g = sample_graph();
    assert_eq!(g.order(), 3);
    assert_eq!(g.size(), 2);
    assert!(!g.is_empty());
    assert_eq!(g.ids(), vec![1, 2, 3]);
    assert_eq!(g.edges(), vec![(1, 2), (2, 3)]);
}

#[test]
fn edges_visible_from_both_endpoints() {
    let g = sample_graph();
    assert_eq!(g.has_edge(1, 2), Ok(true));
    assert_eq!(g.has_edge(2, 1), Ok(true));
    assert_eq!(g.has_edge(2, 3), Ok(true));
    assert_eq!(g.has_edge(3, 2), Ok(true));
    assert_eq!(g.has_edge(1, 3), Ok(false));
    assert_eq!(g.degree(1), Ok(1));
    assert_eq!(g.degree(2), Ok(2));
    assert_eq!(g.degree(3), Ok(1));
    assert_eq!(g.neighbors(2), Ok(vec![1, 3]));
}

#[test]
fn duplicate_vertex_rejected_and_store_unchanged() {
    let mut g = sample_graph();
    assert_eq!(g.add_node(2), Err(Error::DuplicateId(2)));
    assert_eq!(g.order(), 3);
    assert_eq!(g.size(), 2);
}

#[test]
fn edge_with_absent_endpoint_rejected() {
    let mut g = sample_graph();
    assert_eq!(g.add_edge(1, 99), Err(Error::UnknownId(99)));
    assert_eq!(g.add_edge(99, 1), Err(Error::UnknownId(99)));
    assert_eq!(g.order(), 3);
    assert_eq!(g.size(), 2);
}

#[test]
fn duplicate_edge_rejected_in_either_direction() {
    let mut g = sample_graph();
    assert_eq!(g.add_edge(1, 2), Err(Error::DuplicateEdge(1, 2)));
    assert_eq!(g.add_edge(2, 1), Err(Error::DuplicateEdge(2, 1)));
    assert_eq!(g.size(), 2);
}

#[test]
fn self_loop_rejected() {
    let mut g = sample_graph();
    assert_eq!(g.add_edge(1, 1), Err(Error::DuplicateEdge(1, 1)));
    assert_eq!(g.size(), 2);
}

#[test]
fn unknown_id_on_queries() {
    let g = sample_graph();
    assert_eq!(g.degree(42), Err(Error::UnknownId(42)));
    assert!(g.neighbors(42).is_err());
    assert_eq!(g.has_edge(42, 1), Err(Error::UnknownId(42)));
    assert_eq!(g.has_edge(1, 42), Err(Error::UnknownId(42)));
    assert!(!g.has_id(42));
    assert!(g.has_id(3));
}

#[test]
fn adjacency_table_builds_symmetric_graph() {
    let g = HashMapGraph::from_adjacency(vec![vec![1, 2], vec![0], vec![0]]).unwrap();
    assert_eq!(g.order(), 3);
    assert_eq!(g.size(), 2);
    assert_eq!(g.has_edge(0, 1), Ok(true));
    assert_eq!(g.has_edge(2, 0), Ok(true));
    assert_eq!(g.has_edge(1, 2), Ok(false));
}

#[test]
fn adjacency_table_asymmetry_is_missing_edge() {
    // vertex 0 lists 1, but vertex 1 does not list 0
    let r = HashMapGraph::from_adjacency(vec![vec![1], vec![]]);
    assert_eq!(r.err(), Some(Error::MissingEdge(1, 0)));
}

#[test]
fn adjacency_table_out_of_range_is_unknown_id() {
    let r = HashMapGraph::from_adjacency(vec![vec![2], vec![0]]);
    assert_eq!(r.err(), Some(Error::UnknownId(2)));
}

#[test]
fn adjacency_table_duplicate_neighbor_is_duplicate_edge() {
    let r = HashMapGraph::from_adjacency(vec![vec![1, 1], vec![0, 0]]);
    assert_eq!(r.err(), Some(Error::DuplicateEdge(0, 1)));
}

#[test]
fn adjacency_table_reports_first_violation_in_scan_order() {
    // the out-of-range target in row 0 is hit before row 1's asymmetry
    let r = HashMapGraph::from_adjacency(vec![vec![5], vec![0]]);
    assert_eq!(r.err(), Some(Error::UnknownId(5)));
    // the duplicate in row 0 is hit before row 1's out-of-range entry
    let r2 = HashMapGraph::from_adjacency(vec![vec![1, 1], vec![0, 0, 9]]);
    assert_eq!(r2.err(), Some(Error::DuplicateEdge(0, 1)));
}

#[test]
fn edge_list_builds_graph_in_first_sight_order() {
    let g = HashMapGraph::from_edges(vec![(5, 1), (1, 7)]).unwrap();
    assert_eq!(g.ids(), vec![5, 1, 7]);
    assert_eq!(g.size(), 2);
    assert_eq!(g.has_edge(7, 1), Ok(true));
}

#[test]
fn edge_list_duplicate_pair_rejected() {
    let r = HashMapGraph::from_edges(vec![(1, 2), (2, 1)]);
    assert_eq!(r.err(), Some(Error::DuplicateEdge(2, 1)));
    let r2 = HashMapGraph::from_edges(vec![(3, 3)]);
    assert_eq!(r2.err(), Some(Error::DuplicateEdge(3, 3)));
}

#[test]
fn structural_equality_ignores_insertion_order() {
    let a = HashMapGraph::from_edges(vec![(1, 2), (2, 3)]).unwrap();
    let b = HashMapGraph::from_edges(vec![(3, 2), (2, 1)]).unwrap();
    assert!(a.graph_eq(&b));
    assert!(b.graph_eq(&a));
    let c = HashMapGraph::from_edges(vec![(1, 2), (1, 3)]).unwrap();
    assert!(!a.graph_eq(&c));
}
