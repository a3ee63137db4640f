use graphkit::breadth_first::BreadthFirst;
use graphkit::depth_first::DepthFirst;
use graphkit::graph::{Error, Graph, Step};
use graphkit::hashmap_graph::HashMapGraph;

fn diamond() -> HashMapGraph {
    // 1-2, 1-3, 2-4, 3-4, 4-5: connected, 5 vertices, 5 edges
    HashMapGraph::from_edges(vec![(1, 2), (1, 3), (2, 4), (3, 4), (4, 5)]).unwrap()
}

fn dfs_steps(g: &HashMapGraph, root: usize) -> Vec<Step> {
    let mut t = DepthFirst::new(g, root).unwrap();
    let mut steps = Vec::new();
    while let Some(step) = t.next() {
        steps.push(step);
    }
    steps
}

fn bfs_steps(g: &HashMapGraph, root: usize) -> Vec<Step> {
    let mut t = BreadthFirst::new(g, root).unwrap();
    let mut steps = Vec::new();
    while let Some(step) = t.next() {
        steps.push(step);
    }
    steps
}

fn visited_once(steps: &[Step], root: usize) -> Vec<usize> {
    let mut v = vec![root];
    for s in steps {
        if !s.cut {
            v.push(s.tid);
        }
    }
    v
}

#[test]
fn unknown_root_rejected() {
    let g = diamond();
    assert!(matches!(DepthFirst::new(&g, 99), Err(Error::UnknownId(99))));
    assert!(matches!(BreadthFirst::new(&g, 99), Err(Error::UnknownId(99))));
}

#[test]
fn dfs_step_counts_on_connected_graph() {
    let g = diamond();
    let steps = dfs_steps(&g, 1);
    let non_cut = steps.iter().filter(|s| !s.cut).count();
    assert_eq!(non_cut, g.order() - 1);
    assert_eq!(steps.len(), g.size());
}

#[test]
fn bfs_step_counts_on_connected_graph() {
    let g = diamond();
    let steps = bfs_steps(&g, 1);
    let non_cut = steps.iter().filter(|s| !s.cut).count();
    assert_eq!(non_cut, g.order() - 1);
    assert_eq!(steps.len(), g.size());
}

#[test]
fn dfs_and_bfs_visit_same_set_once() {
    let g = diamond();
    let mut d = visited_once(&dfs_steps(&g, 1), 1);
    let mut b = visited_once(&bfs_steps(&g, 1), 1);
    assert_eq!(d.len(), 5);
    assert_eq!(b.len(), 5);
    d.sort();
    b.sort();
    assert_eq!(d, b);
    d.dedup();
    assert_eq!(d.len(), 5);
}

#[test]
fn dfs_explores_first_listed_neighbor_first() {
    let g = HashMapGraph::from_edges(vec![(1, 2), (2, 3), (1, 4)]).unwrap();
    let steps = dfs_steps(&g, 1);
    assert_eq!(
        steps,
        vec![Step::new(1, 2, false), Step::new(2, 3, false), Step::new(1, 4, false)]
    );
}

#[test]
fn bfs_visits_same_depth_in_round_robin() {
    let g = HashMapGraph::from_edges(vec![(1, 2), (2, 3), (1, 4)]).unwrap();
    let steps = bfs_steps(&g, 1);
    assert_eq!(
        steps,
        vec![Step::new(1, 2, false), Step::new(1, 4, false), Step::new(2, 3, false)]
    );
}

#[test]
fn cycle_reports_one_cut_edge() {
    let g = HashMapGraph::from_edges(vec![(1, 2), (2, 3), (3, 1)]).unwrap();
    let steps = dfs_steps(&g, 1);
    assert_eq!(steps.len(), 3);
    assert_eq!(steps.iter().filter(|s| s.cut).count(), 1);
    let bsteps = bfs_steps(&g, 1);
    assert_eq!(bsteps.len(), 3);
    assert_eq!(bsteps.iter().filter(|s| s.cut).count(), 1);
}

#[test]
fn traversal_reaches_only_the_root_component() {
    let g = HashMapGraph::from_edges(vec![(1, 2), (3, 4)]).unwrap();
    let steps = dfs_steps(&g, 1);
    assert_eq!(steps, vec![Step::new(1, 2, false)]);
}

#[test]
fn isolated_root_produces_no_steps() {
    let mut g = HashMapGraph::new();
    g.add_node(7).unwrap();
    let mut t = DepthFirst::new(&g, 7).unwrap();
    assert_eq!(t.next(), None);
    let mut b = BreadthFirst::new(&g, 7).unwrap();
    assert_eq!(b.next(), None);
}

#[test]
fn into_table_collects_visited_subgraph() {
    let g = diamond();
    let t = DepthFirst::new(&g, 1).unwrap();
    let (nodes, edges) = t.into_table();
    assert_eq!(nodes.len(), 5);
    assert_eq!(edges.len(), 5);
    let mut sorted = nodes.clone();
    sorted.sort();
    assert_eq!(sorted, vec![1, 2, 3, 4, 5]);
}

#[test]
fn partially_consumed_traversal_can_fail_replay() {
    let g = HashMapGraph::from_edges(vec![(1, 2), (2, 3), (3, 1)]).unwrap();
    let mut t = DepthFirst::new(&g, 1).unwrap();
    t.next().unwrap();
    t.next().unwrap();
    // the remaining steps refer to vertices discovered before the drain
    // began, which the replay never inserts
    let r = HashMapGraph::from_traversal(t);
    assert_eq!(r.err(), Some(Error::UnknownId(3)));
}

#[test]
fn traversal_of_isolated_root_rebuilds_one_vertex_graph() {
    let mut g = HashMapGraph::new();
    g.add_node(7).unwrap();
    let t = DepthFirst::new(&g, 7).unwrap();
    let rebuilt = HashMapGraph::from_traversal(t).unwrap();
    assert_eq!(rebuilt.order(), 1);
    assert!(rebuilt.has_id(7));
    assert_eq!(rebuilt.size(), 0);
}

#[test]
fn rebuilt_traversal_matches_source_component() {
    let g = diamond();
    let t = DepthFirst::new(&g, 1).unwrap();
    let rebuilt = HashMapGraph::from_traversal(t).unwrap();
    assert!(rebuilt.graph_eq(&g));
}
