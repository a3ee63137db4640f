use graphkit::graph::Graph;
use graphkit::hashmap_graph::HashMapGraph;
use graphkit::k_cores::Kcores;

fn cores_of(g: &HashMapGraph) -> Vec<(usize, Option<usize>)> {
    let mut engine = Kcores::new(g);
    engine.cores_by_batagelj().unwrap();
    g.ids().into_iter().map(|id| (id, engine.core_number(id))).collect()
}

#[test]
fn cycle_vertices_all_have_core_two() {
    let g = HashMapGraph::from_edges(vec![(0, 1), (1, 2), (2, 3), (3, 4), (4, 0)]).unwrap();
    for (id, c) in cores_of(&g) {
        assert_eq!(c, Some(2), "vertex {}", id);
    }
}

#[test]
fn tree_vertices_all_have_core_one() {
    // a small tree: 1-2, 1-3, 3-4, 3-5
    let g = HashMapGraph::from_edges(vec![(1, 2), (1, 3), (3, 4), (3, 5)]).unwrap();
    for (id, c) in cores_of(&g) {
        assert_eq!(c, Some(1), "vertex {}", id);
    }
}

#[test]
fn isolated_vertex_has_core_zero() {
    let mut g = HashMapGraph::from_edges(vec![(1, 2)]).unwrap();
    g.add_node(9).unwrap();
    let mut engine = Kcores::new(&g);
    engine.cores_by_batagelj().unwrap();
    assert_eq!(engine.core_number(9), Some(0));
    assert_eq!(engine.core_number(1), Some(1));
    assert_eq!(engine.core_number(2), Some(1));
}

#[test]
fn complete_graph_has_core_order_minus_one() {
    let g =
        HashMapGraph::from_edges(vec![(0, 1), (0, 2), (0, 3), (1, 2), (1, 3), (2, 3)]).unwrap();
    for (id, c) in cores_of(&g) {
        assert_eq!(c, Some(3), "vertex {}", id);
    }
}

#[test]
fn triangle_with_tail_scenario() {
    let g = HashMapGraph::from_edges(vec![(1, 2), (2, 3), (3, 1), (3, 4)]).unwrap();
    let mut engine = Kcores::new(&g);
    engine.cores_by_batagelj().unwrap();
    assert_eq!(engine.core_number(1), Some(2));
    assert_eq!(engine.core_number(2), Some(2));
    assert_eq!(engine.core_number(3), Some(2));
    assert_eq!(engine.core_number(4), Some(1));
}

#[test]
fn empty_graph_decomposes_to_empty_table() {
    let g = HashMapGraph::new();
    assert_eq!(g.order(), 0);
    let mut engine = Kcores::new(&g);
    engine.cores_by_batagelj().unwrap();
    assert_eq!(engine.core_number(0), None);
    assert_eq!(engine.core_number(1), None);
}

#[test]
fn table_covers_exactly_the_vertices() {
    let g = HashMapGraph::from_edges(vec![(10, 20), (20, 30)]).unwrap();
    let mut engine = Kcores::new(&g);
    engine.cores_by_batagelj().unwrap();
    for id in g.ids() {
        assert!(engine.core_number(id).is_some());
    }
    assert_eq!(engine.core_number(40), None);
}

#[test]
fn decomposition_is_idempotent() {
    let g = HashMapGraph::from_edges(vec![(1, 2), (2, 3), (3, 1), (3, 4), (4, 5)]).unwrap();
    let first = cores_of(&g);
    let second = cores_of(&g);
    assert_eq!(first, second);
    let mut engine = Kcores::new(&g);
    engine.cores_by_batagelj().unwrap();
    engine.cores_by_batagelj().unwrap();
    for (id, c) in first {
        assert_eq!(engine.core_number(id), c);
    }
}

#[test]
fn mixed_degrees_peel_correctly() {
    // two triangles joined by a bridge, plus a pendant
    let g = HashMapGraph::from_edges(vec![
        (1, 2),
        (2, 3),
        (3, 1),
        (3, 4),
        (4, 5),
        (5, 6),
        (6, 4),
        (6, 7),
    ])
    .unwrap();
    let mut engine = Kcores::new(&g);
    engine.cores_by_batagelj().unwrap();
    for id in [1, 2, 3, 4, 5, 6] {
        assert_eq!(engine.core_number(id), Some(2), "vertex {}", id);
    }
    assert_eq!(engine.core_number(7), Some(1));
}
