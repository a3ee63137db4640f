//! Shared bookkeeping for the traversal engines: the termination measure.
//!
//! A traversal engine owns a visited set and a pending-edge pool. Every
//! step either discards one pending edge, or visits one fresh vertex and
//! queues at most that vertex's neighbors. The measure below (the weight
//! of the unvisited part of the graph plus the pool size) therefore
//! strictly shrinks with every step.

use vstd::prelude::*;

use crate::graph::Graph;

verus! {

/// The combined weight of the first `k` enumerated vertices that are not
/// yet visited: each contributes its degree plus one.
pub open spec fn unvisited_weight<G: Graph>(g: &G, visited: Set<usize>, k: int) -> nat
    decreases k,
{
    if k <= 0 {
        0
    } else {
        let id = g.id_seq()[k - 1];
        unvisited_weight(g, visited, k - 1) + if visited.contains(id) {
            0nat
        } else {
            g.adj_seq(id).len() + 1
        }
    }
}

/// The weight of everything not yet visited.
pub open spec fn graph_weight<G: Graph>(g: &G, visited: Set<usize>) -> nat {
    unvisited_weight(g, visited, g.id_seq().len() as int)
}

/// Marking a vertex that does not occur among the first `k` ids leaves the
/// prefix weight unchanged.
proof fn lemma_weight_unaffected<G: Graph>(g: &G, visited: Set<usize>, node: usize, k: int)
    requires
        forall|i: int| 0 <= i < k ==> g.id_seq()[i] != node,
    ensures
        unvisited_weight(g, visited.insert(node), k) == unvisited_weight(g, visited, k),
    decreases k,
{
    if k > 0 {
        lemma_weight_unaffected(g, visited, node, k - 1);
        assert(g.id_seq()[k - 1] != node);
    }
}

/// Marking one unvisited vertex of the prefix removes exactly its degree
/// plus one from the prefix weight.
proof fn lemma_weight_visit_at<G: Graph>(
    g: &G,
    visited: Set<usize>,
    node: usize,
    idx: int,
    k: int,
)
    requires
        0 <= idx < k <= g.id_seq().len(),
        g.id_seq()[idx] == node,
        !visited.contains(node),
        g.id_seq().no_duplicates(),
    ensures
        unvisited_weight(g, visited.insert(node), k) + g.adj_seq(node).len() + 1
            == unvisited_weight(g, visited, k),
    decreases k,
{
    let id = g.id_seq()[k - 1];
    if idx == k - 1 {
        assert(id == node);
        assert forall|i: int| 0 <= i < k - 1 implies g.id_seq()[i] != node by {
            assert(g.id_seq()[i] != g.id_seq()[k - 1]);
        }
        lemma_weight_unaffected(g, visited, node, k - 1);
    } else {
        assert(id != node) by {
            assert(g.id_seq()[idx] != g.id_seq()[k - 1]);
        }
        lemma_weight_visit_at(g, visited, node, idx, k - 1);
    }
}

/// Visiting one fresh vertex removes exactly its degree plus one from the
/// graph weight.
pub proof fn lemma_graph_weight_visit<G: Graph>(g: &G, visited: Set<usize>, node: usize)
    requires
        g.id_seq().no_duplicates(),
        g.id_seq().contains(node),
        !visited.contains(node),
    ensures
        graph_weight(g, visited.insert(node)) + g.adj_seq(node).len() + 1 == graph_weight(
            g,
            visited,
        ),
{
    let idx = choose|idx: int| 0 <= idx < g.id_seq().len() && g.id_seq()[idx] == node;
    lemma_weight_visit_at(g, visited, node, idx, g.id_seq().len() as int);
}

} // verus!
