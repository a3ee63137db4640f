//! The breadth-first traversal engine: the same step semantics as the
//! depth-first engine, but pending edges wait in a first-in-first-out
//! frontier, so same-depth neighbors are reported in round-robin order.

use vstd::prelude::*;

use crate::graph::{Error, Graph, Step};
use crate::traversal::{graph_weight, lemma_graph_weight_visit};

verus! {

broadcast use vstd::std_specs::hash::group_hash_axioms, vstd::seq_lib::group_seq_properties;

/// How one expansion rewrites the frontier: the neighbor list of the
/// freshly visited `node` is processed in order, and each neighbor that is
/// neither the `parent` nor already visited is queued at the far end.
pub open spec fn bfs_expand(
    q: Seq<(usize, usize)>,
    adj: Seq<usize>,
    visited: Set<usize>,
    node: usize,
    parent: usize,
) -> Seq<(usize, usize)>
    decreases adj.len(),
{
    if adj.len() == 0 {
        q
    } else {
        let nb = adj[0];
        let q1 = if nb == parent || visited.contains(nb) {
            q
        } else {
            seq![(node, nb)] + q
        };
        bfs_expand(q1, adj.drop_first(), visited, node, parent)
    }
}

/// `bfs_expand` is a left fold: extending the neighbor list by one element
/// applies one more rewrite at the end.
proof fn lemma_bfs_expand_push(
    q: Seq<(usize, usize)>,
    adj: Seq<usize>,
    x: usize,
    visited: Set<usize>,
    node: usize,
    parent: usize,
)
    ensures
        bfs_expand(q, adj.push(x), visited, node, parent) == {
            let base = bfs_expand(q, adj, visited, node, parent);
            if x == parent || visited.contains(x) {
                base
            } else {
                seq![(node, x)] + base
            }
        },
    decreases adj.len(),
{
    if adj.len() == 0 {
        assert(adj.push(x).drop_first() =~= adj);
        assert(adj.push(x)[0] == x);
        let q1 = if x == parent || visited.contains(x) {
            q
        } else {
            seq![(node, x)] + q
        };
        assert(bfs_expand(q1, adj, visited, node, parent) == q1);
        assert(bfs_expand(q, adj, visited, node, parent) == q);
    } else {
        assert(adj.push(x)[0] == adj[0]);
        assert(adj.push(x).drop_first() =~= adj.drop_first().push(x));
        let nb = adj[0];
        let q1 = if nb == parent || visited.contains(nb) {
            q
        } else {
            seq![(node, nb)] + q
        };
        lemma_bfs_expand_push(q1, adj.drop_first(), x, visited, node, parent);
    }
}

/// Iterates the edges of a graph in breadth-first order from a root,
/// producing one [`Step`] per examined edge.
pub struct BreadthFirst<'a, G: Graph> {
    nodes: std::collections::HashSet<usize>,
    queue: std::collections::VecDeque<(usize, usize)>,
    graph: &'a G,
}

impl<'a, G: Graph> BreadthFirst<'a, G> {
    /// The visited set.
    pub closed spec fn visited(&self) -> Set<usize> {
        self.nodes@
    }

    /// The pending `(parent, child)` edges; the next edge examined is the
    /// last.
    pub closed spec fn pending(&self) -> Seq<(usize, usize)> {
        self.queue@
    }

    /// The graph being traversed.
    pub closed spec fn g(&self) -> &'a G {
        self.graph
    }

    /// The engine's invariant: the graph is valid, every visited vertex is
    /// a vertex of the graph, and every pending edge runs from a visited
    /// vertex along an edge of the graph to another of its vertices.
    pub open spec fn wf(&self) -> bool {
        &&& self.g().valid()
        &&& forall|v: usize| self.visited().contains(v) ==> self.g().id_seq().contains(v)
        &&& forall|k: int|
            0 <= k < self.pending().len() ==> self.visited().contains(#[trigger] self.pending()[k].0)
                && self.g().id_seq().contains(self.pending()[k].1) && self.g().adj_seq(
                self.pending()[k].0,
            ).contains(self.pending()[k].1)
    }

    /// Steps still possible: shrinks with every produced step.
    pub open spec fn measure(&self) -> nat {
        graph_weight(self.g(), self.visited()) + self.pending().len()
    }

    /// Start a breadth-first traversal at `root`: the root is marked
    /// visited and its edges are queued so that the first-listed neighbor
    /// is examined first. Fails with `UnknownId` exactly when `root` is
    /// absent.
    pub fn new(graph: &'a G, root: usize) -> (r: Result<Self, Error>)
        requires
            graph.valid(),
        ensures
            match r {
                Ok(t) => {
                    &&& t.wf()
                    &&& t.g() == graph
                    &&& graph.id_seq().contains(root)
                    &&& t.visited() == Set::<usize>::empty().insert(root)
                    &&& t.pending() == Seq::new(
                        graph.adj_seq(root).len(),
                        |k: int| (root, graph.adj_seq(root)[graph.adj_seq(root).len() - 1 - k]),
                    )
                },
                Err(e) => e == Error::UnknownId(root) && !graph.id_seq().contains(root),
            },
    {
        let mut nodes: std::collections::HashSet<usize> = std::collections::HashSet::new();
        let mut queue: std::collections::VecDeque<(usize, usize)> =
            std::collections::VecDeque::new();
        let neighbors = match graph.neighbors(root) {
            Ok(v) => v,
            Err(e) => {
                return Err(e);
            },
        };
        let ghost adj = graph.adj_seq(root);
        let mut i: usize = 0;
        while i < neighbors.len()
            invariant
                0 <= i <= adj.len(),
                neighbors@ == adj,
                queue@.len() == i,
                forall|k: int|
                    0 <= k < queue@.len() ==> #[trigger] queue@[k] == (root, adj[i - 1 - k]),
            decreases adj.len() - i,
        {
            queue.push_front((root, neighbors[i]));
            i += 1;
        }
        nodes.insert(root);
        proof {
            graph.valid_facts();
            assert(queue@ =~= Seq::new(adj.len(), |k: int| (root, adj[adj.len() - 1 - k])));
            let idx = choose|idx: int|
                0 <= idx < graph.id_seq().len() && graph.id_seq()[idx] == root;
            assert forall|k: int| 0 <= k < queue@.len() implies nodes@.contains(
                #[trigger] queue@[k].0,
            ) && graph.id_seq().contains(queue@[k].1) && graph.adj_seq(queue@[k].0).contains(
                queue@[k].1,
            ) by {
                assert(queue@[k] == (root, adj[adj.len() - 1 - k]));
                assert(graph.adj_seq(graph.id_seq()[idx])[adj.len() - 1 - k] == adj[adj.len() - 1
                    - k]);
                assert(graph.adj_seq(root).contains(adj[adj.len() - 1 - k]));
            }
        }
        Ok(BreadthFirst { nodes, queue, graph })
    }

    /// Produce the next traversal step, or `None` when the frontier is
    /// empty. A popped edge into an already visited child is reported as a
    /// cut and discarded; an edge into a fresh child marks it visited,
    /// queues its onward edges at the far end, and is reported as a
    /// spanning-structure step.
    pub fn next(&mut self) -> (r: Option<Step>)
        requires
            old(self).wf(),
        ensures
            final(self).wf(),
            final(self).g() == old(self).g(),
            match r {
                None => old(self).pending().len() == 0 && final(self).visited() == old(
                    self,
                ).visited() && final(self).pending() == old(self).pending(),
                Some(step) => {
                    &&& old(self).pending().len() > 0
                    &&& (step.sid, step.tid) == old(self).pending().last()
                    &&& final(self).measure() < old(self).measure()
                    &&& if old(self).visited().contains(step.tid) {
                        &&& step.cut
                        &&& final(self).visited() == old(self).visited()
                        &&& final(self).pending() == old(self).pending().drop_last()
                    } else {
                        &&& !step.cut
                        &&& final(self).visited() == old(self).visited().insert(step.tid)
                        &&& final(self).pending() == bfs_expand(
                            old(self).pending().drop_last(),
                            old(self).g().adj_seq(step.tid),
                            old(self).visited(),
                            step.tid,
                            step.sid,
                        )
                    }
                },
            },
    {
        let popped = self.queue.pop_back();
        match popped {
            None => None,
            Some((parent, node)) => {
                proof {
                    assert(self.queue@ =~= old(self).queue@.drop_last());
                }
                if self.nodes.contains(&node) {
                    Some(Step::new(parent, node, true))
                } else {
                    let ghost visited0 = self.nodes@;
                    let ghost start = self.queue@;
                    let neighbors = match self.graph.neighbors(node) {
                        Ok(v) => v,
                        Err(_) => {
                            proof {
                                assert(false);
                            }
                            return None;
                        },
                    };
                    let ghost adj = self.graph.adj_seq(node);
                    proof {
                        self.graph.valid_facts();
                        let idx = choose|idx: int|
                            0 <= idx < self.graph.id_seq().len() && self.graph.id_seq()[idx]
                                == node;
                        assert forall|j: int| 0 <= j < adj.len() implies adj[j] != node
                            && self.graph.id_seq().contains(#[trigger] adj[j]) by {
                            assert(self.graph.adj_seq(self.graph.id_seq()[idx])[j] == adj[j]);
                        }
                        assert forall|k: int| 0 <= k < start.len() implies (visited0.contains(
                            #[trigger] start[k].0,
                        ) || start[k].0 == node) && self.graph.id_seq().contains(start[k].1) by {
                            assert(start[k] == old(self).queue@[k]);
                        }
                        assert(adj.take(0) =~= Seq::<usize>::empty());
                        assert(self.queue@ == bfs_expand(start, adj.take(0), visited0, node, parent));
                    }
                    let mut i: usize = 0;
                    while i < neighbors.len()
                        invariant
                            0 <= i <= adj.len(),
                            neighbors@ == adj,
                            adj == self.graph.adj_seq(node),
                            self.queue@ == bfs_expand(
                                start,
                                adj.take(i as int),
                                visited0,
                                node,
                                parent,
                            ),
                            self.nodes@ == visited0,
                            self.graph == old(self).graph,
                            self.graph.valid(),
                            forall|j: int|
                                0 <= j < adj.len() ==> adj[j] != node
                                    && self.graph.id_seq().contains(#[trigger] adj[j]),
                            forall|v: usize|
                                visited0.contains(v) ==> self.graph.id_seq().contains(v),
                            self.graph.id_seq().contains(node),
                            forall|k: int|
                                0 <= k < self.queue@.len() ==> (visited0.contains(
                                    #[trigger] self.queue@[k].0,
                                ) || self.queue@[k].0 == node) && self.graph.id_seq().contains(
                                    self.queue@[k].1,
                                ) && self.graph.adj_seq(self.queue@[k].0).contains(
                                    self.queue@[k].1,
                                ),
                            self.queue@.len() <= start.len() + i,
                        decreases adj.len() - i,
                    {
                        let nb = neighbors[i];
                        proof {
                            assert(adj.take(i + 1 as int) =~= adj.take(i as int).push(
                                adj[i as int],
                            ));
                            assert(adj[i as int] == nb);
                            lemma_bfs_expand_push(
                                start,
                                adj.take(i as int),
                                nb,
                                visited0,
                                node,
                                parent,
                            );
                        }
                        if nb == parent || self.nodes.contains(&nb) {
                        } else {
                            let ghost mid = self.queue@;
                            self.queue.push_front((node, nb));
                            proof {
                                assert(self.queue@ =~= seq![(node, nb)] + mid);
                                assert forall|k: int| 0 <= k < self.queue@.len() implies (
                                visited0.contains(#[trigger] self.queue@[k].0) || self.queue@[k].0
                                    == node) && self.graph.id_seq().contains(
                                    self.queue@[k].1,
                                ) && self.graph.adj_seq(self.queue@[k].0).contains(
                                    self.queue@[k].1,
                                ) by {
                                    if k == 0 {
                                        assert(self.queue@[k] == (node, nb));
                                        assert(adj[i as int] == nb);
                                        assert(self.graph.adj_seq(node).contains(nb));
                                    } else {
                                        assert(self.queue@[k] == mid[k - 1]);
                                    }
                                }
                            }
                        }
                        i += 1;
                    }
                    self.nodes.insert(node);
                    proof {
                        assert(adj.take(adj.len() as int) == adj);
                        lemma_graph_weight_visit(self.graph, visited0, node);
                        assert(self.queue@.len() <= start.len() + adj.len());
                        assert(start.len() + 1 == old(self).queue@.len());
                        assert(graph_weight(self.graph, self.nodes@) + adj.len() + 1
                            == graph_weight(self.graph, visited0));
                        assert(final(self).measure() < old(self).measure());
                    }
                    Some(Step::new(parent, node, false))
                }
            },
        }
    }
}

} // verus!
