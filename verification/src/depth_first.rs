//! The depth-first traversal engine: an explicit stack of pending
//! `(parent, child)` edges and a visited set. Each step pops one pending
//! edge and reports it, expanding the child's neighbors when the child is
//! seen for the first time.

use vstd::prelude::*;

use crate::graph::{Error, Graph, Step};
use crate::traversal::{graph_weight, lemma_graph_weight_visit};

verus! {

broadcast use vstd::std_specs::hash::group_hash_axioms, vstd::seq_lib::group_seq_properties;

/// The predicate by which a superseded pending edge `(a, b)` is dropped
/// from the stack.
pub open spec fn keep_other_than(a: usize, b: usize) -> spec_fn((usize, usize)) -> bool {
    |e: (usize, usize)| !(e.0 == a && e.1 == b)
}

/// How one expansion rewrites the pending stack: the reversed neighbor
/// list of the freshly visited `node` is processed front to back; the edge
/// back to `parent` is skipped; an edge toward an already visited neighbor
/// first drops the pending mirror edge `(neighbor, node)` and is then
/// queued (to be reported as a cut), and an edge toward a fresh neighbor
/// is queued as it stands.
pub open spec fn dfs_expand(
    st: Seq<(usize, usize)>,
    adjr: Seq<usize>,
    visited: Set<usize>,
    node: usize,
    parent: usize,
) -> Seq<(usize, usize)>
    decreases adjr.len(),
{
    if adjr.len() == 0 {
        st
    } else {
        let nb = adjr[0];
        let st1 = if nb == parent {
            st
        } else if visited.contains(nb) {
            st.filter(keep_other_than(nb, node)).push((node, nb))
        } else {
            st.push((node, nb))
        };
        dfs_expand(st1, adjr.drop_first(), visited, node, parent)
    }
}

/// `dfs_expand` is a left fold: extending the neighbor list by one element
/// applies one more rewrite at the end.
proof fn lemma_dfs_expand_push(
    st: Seq<(usize, usize)>,
    adjr: Seq<usize>,
    x: usize,
    visited: Set<usize>,
    node: usize,
    parent: usize,
)
    ensures
        dfs_expand(st, adjr.push(x), visited, node, parent) == {
            let base = dfs_expand(st, adjr, visited, node, parent);
            if x == parent {
                base
            } else if visited.contains(x) {
                base.filter(keep_other_than(x, node)).push((node, x))
            } else {
                base.push((node, x))
            }
        },
    decreases adjr.len(),
{
    if adjr.len() == 0 {
        assert(adjr.push(x).drop_first() =~= adjr);
        assert(adjr.push(x)[0] == x);
        let st1 = if x == parent {
            st
        } else if visited.contains(x) {
            st.filter(keep_other_than(x, node)).push((node, x))
        } else {
            st.push((node, x))
        };
        assert(dfs_expand(st1, adjr, visited, node, parent) == st1);
        assert(dfs_expand(st, adjr, visited, node, parent) == st);
    } else {
        assert(adjr.push(x)[0] == adjr[0]);
        assert(adjr.push(x).drop_first() =~= adjr.drop_first().push(x));
        let nb = adjr[0];
        let st1 = if nb == parent {
            st
        } else if visited.contains(nb) {
            st.filter(keep_other_than(nb, node)).push((node, nb))
        } else {
            st.push((node, nb))
        };
        lemma_dfs_expand_push(st1, adjr.drop_first(), x, visited, node, parent);
    }
}

/// Expanding a neighbor list grows the pending stack by at most the
/// list's length.
#[allow(deprecated)]
proof fn lemma_dfs_expand_len(
    st: Seq<(usize, usize)>,
    adjr: Seq<usize>,
    visited: Set<usize>,
    node: usize,
    parent: usize,
)
    ensures
        dfs_expand(st, adjr, visited, node, parent).len() <= st.len() + adjr.len(),
    decreases adjr.len(),
{
    if adjr.len() > 0 {
        let nb = adjr[0];
        let st1 = if nb == parent {
            st
        } else if visited.contains(nb) {
            st.filter(keep_other_than(nb, node)).push((node, nb))
        } else {
            st.push((node, nb))
        };
        if nb != parent && visited.contains(nb) {
            st.filter_lemma(keep_other_than(nb, node));
        }
        lemma_dfs_expand_len(st1, adjr.drop_first(), visited, node, parent);
    }
}

/// Every entry a filter keeps was an entry of the original sequence.
#[allow(deprecated)]
proof fn lemma_filter_elems(s: Seq<(usize, usize)>, p: spec_fn((usize, usize)) -> bool, i: int)
    requires
        0 <= i < s.filter(p).len(),
    ensures
        s.contains(#[trigger] s.filter(p)[i]),
    decreases s.len(),
{
    reveal(Seq::filter);
    s.filter_lemma(p);
    assert(s.len() > 0);
    let fd = s.drop_last().filter(p);
    if i < fd.len() {
        lemma_filter_elems(s.drop_last(), p, i);
        let j = choose|j: int| 0 <= j < s.drop_last().len() && s.drop_last()[j] == fd[i];
        assert(s[j] == fd[i]);
        assert(s.filter(p)[i] == fd[i]);
    } else {
        assert(s.filter(p)[i] == s.last());
        assert(s.contains(s[s.len() - 1]));
    }
}

/// Expansion keeps every pending target a vertex of the graph.
proof fn lemma_dfs_expand_targets<G: Graph>(
    g: &G,
    st: Seq<(usize, usize)>,
    adjr: Seq<usize>,
    visited: Set<usize>,
    node: usize,
    parent: usize,
)
    requires
        forall|k: int| 0 <= k < st.len() ==> g.id_seq().contains((#[trigger] st[k]).1),
        forall|i: int| 0 <= i < adjr.len() ==> g.id_seq().contains(#[trigger] adjr[i]),
    ensures
        forall|k: int|
            0 <= k < dfs_expand(st, adjr, visited, node, parent).len() ==> g.id_seq().contains(
                (#[trigger] dfs_expand(st, adjr, visited, node, parent)[k]).1,
            ),
    decreases adjr.len(),
{
    if adjr.len() == 0 {
        assert forall|k: int|
            0 <= k < dfs_expand(st, adjr, visited, node, parent).len() implies g.id_seq().contains(
            (#[trigger] dfs_expand(st, adjr, visited, node, parent)[k]).1,
        ) by {
            assert(dfs_expand(st, adjr, visited, node, parent)[k] == st[k]);
        }
    } else {
        let nb = adjr[0];
        let st1 = if nb == parent {
            st
        } else if visited.contains(nb) {
            st.filter(keep_other_than(nb, node)).push((node, nb))
        } else {
            st.push((node, nb))
        };
        assert forall|k: int| 0 <= k < st1.len() implies g.id_seq().contains(
            (#[trigger] st1[k]).1,
        ) by {
            if nb != parent && visited.contains(nb) {
                let f = st.filter(keep_other_than(nb, node));
                if k < f.len() {
                    lemma_filter_elems(st, keep_other_than(nb, node), k);
                    let j = choose|j: int| 0 <= j < st.len() && st[j] == f[k];
                    assert(st1[k] == st[j]);
                } else {
                    assert(st1[k] == (node, nb));
                }
            } else if nb != parent {
                if k == st.len() {
                    assert(st1[k] == (node, nb));
                }
            }
        }
        assert forall|i: int| 0 <= i < adjr.drop_first().len() implies g.id_seq().contains(
            #[trigger] adjr.drop_first()[i],
        ) by {
            assert(adjr.drop_first()[i] == adjr[i + 1]);
        }
        lemma_dfs_expand_targets(g, st1, adjr.drop_first(), visited, node, parent);
        assert(dfs_expand(st, adjr, visited, node, parent) == dfs_expand(
            st1,
            adjr.drop_first(),
            visited,
            node,
            parent,
        ));
        assert forall|k: int|
            0 <= k < dfs_expand(st, adjr, visited, node, parent).len() implies g.id_seq().contains(
            (#[trigger] dfs_expand(st, adjr, visited, node, parent)[k]).1,
        ) by {
            assert(dfs_expand(st, adjr, visited, node, parent)[k] == dfs_expand(
                st1,
                adjr.drop_first(),
                visited,
                node,
                parent,
            )[k]);
        }
    }
}

/// What the run function needs of a traversal state: a valid graph and
/// pending targets that are vertices of it.
pub open spec fn run_wf<G: Graph>(g: &G, visited: Set<usize>, stack: Seq<(usize, usize)>) -> bool {
    &&& g.valid()
    &&& forall|k: int| 0 <= k < stack.len() ==> g.id_seq().contains((#[trigger] stack[k]).1)
}

/// The full step sequence a depth-first engine emits from the given
/// state: pop the last pending edge, report it as a cut when its target
/// was visited, and otherwise visit the target, expand its neighbors and
/// report a spanning-structure step.
pub open spec fn dfs_run<G: Graph>(
    g: &G,
    visited: Set<usize>,
    stack: Seq<(usize, usize)>,
) -> Seq<Step>
    decreases graph_weight(g, visited) + stack.len()
        when run_wf(g, visited, stack)
        via dfs_run_decreases::<G>
{
    if stack.len() == 0 {
        Seq::empty()
    } else {
        let p = stack.last().0;
        let nd = stack.last().1;
        if visited.contains(nd) {
            seq![Step { sid: p, tid: nd, cut: true }] + dfs_run(g, visited, stack.drop_last())
        } else {
            seq![Step { sid: p, tid: nd, cut: false }] + dfs_run(
                g,
                visited.insert(nd),
                dfs_expand(stack.drop_last(), g.adj_seq(nd).reverse(), visited, nd, p),
            )
        }
    }
}

#[via_fn]
proof fn dfs_run_decreases<G: Graph>(g: &G, visited: Set<usize>, stack: Seq<(usize, usize)>) {
    if stack.len() > 0 {
        let p = stack.last().0;
        let nd = stack.last().1;
        assert(g.id_seq().contains(stack[stack.len() - 1].1));
        if !visited.contains(nd) {
            g.valid_facts();
            lemma_graph_weight_visit(g, visited, nd);
            let adjr = g.adj_seq(nd).reverse();
            lemma_dfs_expand_len(stack.drop_last(), adjr, visited, nd, p);
            let idx = choose|idx: int| 0 <= idx < g.id_seq().len() && g.id_seq()[idx] == nd;
            assert forall|i: int| 0 <= i < adjr.len() implies g.id_seq().contains(
                #[trigger] adjr[i],
            ) by {
                assert(g.adj_seq(g.id_seq()[idx])[adjr.len() - 1 - i] == adjr[i]);
            }
            assert forall|k: int|
                0 <= k < stack.drop_last().len() implies g.id_seq().contains(
                (#[trigger] stack.drop_last()[k]).1,
            ) by {
                assert(stack.drop_last()[k] == stack[k]);
            }
            lemma_dfs_expand_targets(g, stack.drop_last(), adjr, visited, nd, p);
        }
    }
}

/// One unfolding of the run: what the next emitted step is and which
/// state the rest of the run continues from.
pub proof fn lemma_dfs_run_step<G: Graph>(g: &G, visited: Set<usize>, stack: Seq<(usize, usize)>)
    requires
        run_wf(g, visited, stack),
    ensures
        stack.len() == 0 ==> dfs_run(g, visited, stack) == Seq::<Step>::empty(),
        stack.len() > 0 && visited.contains(stack.last().1) ==> dfs_run(g, visited, stack) == seq![
            Step { sid: stack.last().0, tid: stack.last().1, cut: true },
        ] + dfs_run(g, visited, stack.drop_last()),
        stack.len() > 0 && !visited.contains(stack.last().1) ==> dfs_run(g, visited, stack)
            == seq![Step { sid: stack.last().0, tid: stack.last().1, cut: false }] + dfs_run(
            g,
            visited.insert(stack.last().1),
            dfs_expand(
                stack.drop_last(),
                g.adj_seq(stack.last().1).reverse(),
                visited,
                stack.last().1,
                stack.last().0,
            ),
        ),
{
    if stack.len() > 0 {
        let p = stack.last().0;
        let nd = stack.last().1;
        if !visited.contains(nd) {
            g.valid_facts();
            let adjr = g.adj_seq(nd).reverse();
            assert(g.id_seq().contains(stack[stack.len() - 1].1));
            let idx = choose|idx: int| 0 <= idx < g.id_seq().len() && g.id_seq()[idx] == nd;
            assert forall|i: int| 0 <= i < adjr.len() implies g.id_seq().contains(
                #[trigger] adjr[i],
            ) by {
                assert(g.adj_seq(g.id_seq()[idx])[adjr.len() - 1 - i] == adjr[i]);
            }
            assert forall|k: int|
                0 <= k < stack.drop_last().len() implies g.id_seq().contains(
                (#[trigger] stack.drop_last()[k]).1,
            ) by {
                assert(stack.drop_last()[k] == stack[k]);
            }
            lemma_dfs_expand_targets(g, stack.drop_last(), adjr, visited, nd, p);
            assert(run_wf(g, visited.insert(nd), dfs_expand(stack.drop_last(), adjr, visited, nd, p)));
            assert(dfs_run(g, visited, stack) == seq![Step { sid: p, tid: nd, cut: false }]
                + dfs_run(g, visited.insert(nd), dfs_expand(stack.drop_last(), adjr, visited, nd, p)));
        }
    }
}

/// Expansion queues only pairs that are edges of the graph, provided the
/// stack held only such pairs and the list being expanded is part of the
/// expanded vertex's adjacency.
proof fn lemma_dfs_expand_pairs<G: Graph>(
    g: &G,
    st: Seq<(usize, usize)>,
    adjr: Seq<usize>,
    visited: Set<usize>,
    node: usize,
    parent: usize,
)
    requires
        forall|k: int|
            0 <= k < st.len() ==> g.adj_seq((#[trigger] st[k]).0).contains(st[k].1),
        forall|i: int| 0 <= i < adjr.len() ==> g.adj_seq(node).contains(#[trigger] adjr[i]),
    ensures
        forall|k: int|
            0 <= k < dfs_expand(st, adjr, visited, node, parent).len() ==> g.adj_seq(
                (#[trigger] dfs_expand(st, adjr, visited, node, parent)[k]).0,
            ).contains(dfs_expand(st, adjr, visited, node, parent)[k].1),
    decreases adjr.len(),
{
    if adjr.len() == 0 {
        assert forall|k: int|
            0 <= k < dfs_expand(st, adjr, visited, node, parent).len() implies g.adj_seq(
            (#[trigger] dfs_expand(st, adjr, visited, node, parent)[k]).0,
        ).contains(dfs_expand(st, adjr, visited, node, parent)[k].1) by {
            assert(dfs_expand(st, adjr, visited, node, parent)[k] == st[k]);
        }
    } else {
        let nb = adjr[0];
        let st1 = if nb == parent {
            st
        } else if visited.contains(nb) {
            st.filter(keep_other_than(nb, node)).push((node, nb))
        } else {
            st.push((node, nb))
        };
        assert forall|k: int| 0 <= k < st1.len() implies g.adj_seq(
            (#[trigger] st1[k]).0,
        ).contains(st1[k].1) by {
            if nb != parent && visited.contains(nb) {
                let f = st.filter(keep_other_than(nb, node));
                if k < f.len() {
                    lemma_filter_elems(st, keep_other_than(nb, node), k);
                    let j = choose|j: int| 0 <= j < st.len() && st[j] == f[k];
                    assert(st1[k] == st[j]);
                } else {
                    assert(st1[k] == (node, nb));
                }
            } else if nb != parent {
                if k == st.len() {
                    assert(st1[k] == (node, nb));
                }
            }
        }
        assert forall|i: int| 0 <= i < adjr.drop_first().len() implies g.adj_seq(node).contains(
            #[trigger] adjr.drop_first()[i],
        ) by {
            assert(adjr.drop_first()[i] == adjr[i + 1]);
        }
        lemma_dfs_expand_pairs(g, st1, adjr.drop_first(), visited, node, parent);
        assert(dfs_expand(st, adjr, visited, node, parent) == dfs_expand(
            st1,
            adjr.drop_first(),
            visited,
            node,
            parent,
        ));
        assert forall|k: int|
            0 <= k < dfs_expand(st, adjr, visited, node, parent).len() implies g.adj_seq(
            (#[trigger] dfs_expand(st, adjr, visited, node, parent)[k]).0,
        ).contains(dfs_expand(st, adjr, visited, node, parent)[k].1) by {
            assert(dfs_expand(st, adjr, visited, node, parent)[k] == dfs_expand(
                st1,
                adjr.drop_first(),
                visited,
                node,
                parent,
            )[k]);
        }
    }
}

/// Every step of a whole depth-first run reports an edge of the graph:
/// its pair stands in the source's neighbor list.
pub proof fn lemma_dfs_run_steps_are_edges<G: Graph>(
    g: &G,
    visited: Set<usize>,
    stack: Seq<(usize, usize)>,
)
    requires
        run_wf(g, visited, stack),
        forall|k: int|
            0 <= k < stack.len() ==> g.adj_seq((#[trigger] stack[k]).0).contains(stack[k].1),
    ensures
        forall|k: int|
            0 <= k < dfs_run(g, visited, stack).len() ==> g.adj_seq(
                (#[trigger] dfs_run(g, visited, stack)[k]).sid,
            ).contains(dfs_run(g, visited, stack)[k].tid),
    decreases graph_weight(g, visited) + stack.len(),
{
    lemma_dfs_run_step(g, visited, stack);
    if stack.len() > 0 {
        let p = stack.last().0;
        let nd = stack.last().1;
        assert(g.adj_seq(stack[stack.len() - 1].0).contains(stack[stack.len() - 1].1));
        assert forall|k: int|
            0 <= k < stack.drop_last().len() implies g.adj_seq(
            (#[trigger] stack.drop_last()[k]).0,
        ).contains(stack.drop_last()[k].1) && g.id_seq().contains(stack.drop_last()[k].1) by {
            assert(stack.drop_last()[k] == stack[k]);
            assert(g.id_seq().contains(stack[k].1));
        }
        if visited.contains(nd) {
            lemma_dfs_run_steps_are_edges(g, visited, stack.drop_last());
            let run = dfs_run(g, visited, stack);
            let rest = dfs_run(g, visited, stack.drop_last());
            assert forall|k: int| 0 <= k < run.len() implies g.adj_seq(
                (#[trigger] run[k]).sid,
            ).contains(run[k].tid) by {
                if k > 0 {
                    assert(run[k] == rest[k - 1]);
                }
            }
        } else {
            g.valid_facts();
            lemma_graph_weight_visit(g, visited, nd);
            let adjr = g.adj_seq(nd).reverse();
            lemma_dfs_expand_len(stack.drop_last(), adjr, visited, nd, p);
            let idx = choose|idx: int| 0 <= idx < g.id_seq().len() && g.id_seq()[idx] == nd;
            assert forall|i: int| 0 <= i < adjr.len() implies g.id_seq().contains(
                #[trigger] adjr[i],
            ) && g.adj_seq(nd).contains(adjr[i]) by {
                assert(g.adj_seq(g.id_seq()[idx])[adjr.len() - 1 - i] == adjr[i]);
                assert(g.adj_seq(nd)[adjr.len() - 1 - i] == adjr[i]);
            }
            lemma_dfs_expand_targets(g, stack.drop_last(), adjr, visited, nd, p);
            lemma_dfs_expand_pairs(g, stack.drop_last(), adjr, visited, nd, p);
            let st2 = dfs_expand(stack.drop_last(), adjr, visited, nd, p);
            lemma_dfs_run_steps_are_edges(g, visited.insert(nd), st2);
            let run = dfs_run(g, visited, stack);
            let rest = dfs_run(g, visited.insert(nd), st2);
            assert forall|k: int| 0 <= k < run.len() implies g.adj_seq(
                (#[trigger] run[k]).sid,
            ).contains(run[k].tid) by {
                if k > 0 {
                    assert(run[k] == rest[k - 1]);
                }
            }
        }
    }
}

/// The `(source, target)` pairs of a step sequence, in emission order.
pub open spec fn step_pairs(steps: Seq<Step>) -> Seq<(usize, usize)> {
    steps.map_values(|s: Step| (s.sid, s.tid))
}

/// The targets of the non-cut steps, in emission order.
pub open spec fn noncut_tids(steps: Seq<Step>) -> Seq<usize>
    decreases steps.len(),
{
    if steps.len() == 0 {
        Seq::empty()
    } else {
        let acc = noncut_tids(steps.drop_last());
        if steps.last().cut {
            acc
        } else {
            acc.push(steps.last().tid)
        }
    }
}

/// The vertices a drained run lists: the first step's source, then each
/// freshly visited target in order.
pub open spec fn step_nodes(steps: Seq<Step>) -> Seq<usize> {
    if steps.len() == 0 {
        Seq::empty()
    } else {
        seq![steps[0].sid] + noncut_tids(steps)
    }
}

/// Remove from the pending stack every entry equal to `(a, b)`.
fn stack_retain(v: &mut Vec<(usize, usize)>, a: usize, b: usize)
    ensures
        final(v)@ == old(v)@.filter(keep_other_than(a, b)),
        forall|k: int| 0 <= k < final(v)@.len() ==> old(v)@.contains(#[trigger] final(v)@[k]),
        final(v)@.len() <= old(v)@.len(),
{
    let mut out: Vec<(usize, usize)> = Vec::new();
    let mut i: usize = 0;
    while i < v.len()
        invariant
            0 <= i <= v@.len(),
            out@ == v@.take(i as int).filter(keep_other_than(a, b)),
            forall|k: int| 0 <= k < out@.len() ==> v@.contains(#[trigger] out@[k]),
            out@.len() <= i,
        decreases v@.len() - i,
    {
        let (p, q) = v[i];
        proof {
            let s1 = v@.take(i + 1 as int);
            assert(s1.drop_last() =~= v@.take(i as int));
            assert(s1.last() == v@[i as int]);
            reveal_with_fuel(Seq::filter, 2);
            assert(s1.filter(keep_other_than(a, b)) == if keep_other_than(a, b)(v@[i as int]) {
                v@.take(i as int).filter(keep_other_than(a, b)).push(v@[i as int])
            } else {
                v@.take(i as int).filter(keep_other_than(a, b))
            });
        }
        if !(p == a && q == b) {
            out.push((p, q));
            proof {
                assert(v@.contains(v@[i as int]));
            }
        }
        i += 1;
    }
    proof {
        assert(v@.take(v@.len() as int) == v@);
    }
    *v = out;
}

/// Iterates the edges of a graph in depth-first order from a root,
/// producing one [`Step`] per examined edge.
pub struct DepthFirst<'a, G: Graph> {
    nodes: std::collections::HashSet<usize>,
    stack: Vec<(usize, usize)>,
    graph: &'a G,
    root: usize,
}

impl<'a, G: Graph> DepthFirst<'a, G> {
    /// The visited set.
    pub closed spec fn visited(&self) -> Set<usize> {
        self.nodes@
    }

    /// The root the traversal was started at.
    pub closed spec fn root(&self) -> usize {
        self.root
    }

    /// The root the traversal was started at.
    pub fn root_id(&self) -> (r: usize)
        ensures
            r == self.root(),
    {
        self.root
    }

    /// The pending `(parent, child)` edges; the next edge examined is the
    /// last.
    pub closed spec fn pending(&self) -> Seq<(usize, usize)> {
        self.stack@
    }

    /// The graph being traversed.
    pub closed spec fn g(&self) -> &'a G {
        self.graph
    }

    /// The engine's invariant: the graph is valid, the root is visited,
    /// every visited vertex is a vertex of the graph, and every pending
    /// edge runs from a visited vertex along an edge of the graph to
    /// another of its vertices.
    pub open spec fn wf(&self) -> bool {
        &&& self.g().valid()
        &&& self.visited().contains(self.root())
        &&& forall|v: usize| self.visited().contains(v) ==> self.g().id_seq().contains(v)
        &&& forall|k: int|
            0 <= k < self.pending().len() ==> self.visited().contains(#[trigger] self.pending()[k].0)
                && self.g().id_seq().contains(self.pending()[k].1) && self.g().adj_seq(
                self.pending()[k].0,
            ).contains(self.pending()[k].1)
    }

    /// Steps still possible: shrinks with every produced step.
    pub open spec fn measure(&self) -> nat {
        graph_weight(self.g(), self.visited()) + self.pending().len()
    }

    /// Start a depth-first traversal at `root`: the root is marked visited
    /// and its edges are queued so that the first-listed neighbor is
    /// examined first. Fails with `UnknownId` exactly when `root` is
    /// absent.
    pub fn new(graph: &'a G, root: usize) -> (r: Result<Self, Error>)
        requires
            graph.valid(),
        ensures
            match r {
                Ok(t) => {
                    &&& t.wf()
                    &&& t.g() == graph
                    &&& t.root() == root
                    &&& graph.id_seq().contains(root)
                    &&& t.visited() == Set::<usize>::empty().insert(root)
                    &&& t.pending() == Seq::new(
                        graph.adj_seq(root).len(),
                        |k: int| (root, graph.adj_seq(root)[graph.adj_seq(root).len() - 1 - k]),
                    )
                },
                Err(e) => e == Error::UnknownId(root) && !graph.id_seq().contains(root),
            },
    {
        let mut nodes: std::collections::HashSet<usize> = std::collections::HashSet::new();
        let mut stack: Vec<(usize, usize)> = Vec::new();
        let neighbors = match graph.neighbors(root) {
            Ok(v) => v,
            Err(e) => {
                return Err(e);
            },
        };
        let ghost adj = graph.adj_seq(root);
        let mut i: usize = neighbors.len();
        while i > 0
            invariant
                0 <= i <= adj.len(),
                neighbors@ == adj,
                stack@.len() == adj.len() - i,
                forall|k: int|
                    0 <= k < stack@.len() ==> #[trigger] stack@[k] == (
                        root,
                        adj[adj.len() - 1 - k],
                    ),
            decreases i,
        {
            i -= 1;
            stack.push((root, neighbors[i]));
        }
        nodes.insert(root);
        proof {
            graph.valid_facts();
            assert(stack@ =~= Seq::new(adj.len(), |k: int| (root, adj[adj.len() - 1 - k])));
            let idx = choose|idx: int|
                0 <= idx < graph.id_seq().len() && graph.id_seq()[idx] == root;
            assert forall|k: int| 0 <= k < stack@.len() implies nodes@.contains(
                #[trigger] stack@[k].0,
            ) && graph.id_seq().contains(stack@[k].1) && graph.adj_seq(stack@[k].0).contains(
                stack@[k].1,
            ) by {
                assert(stack@[k] == (root, adj[adj.len() - 1 - k]));
                assert(graph.adj_seq(graph.id_seq()[idx])[adj.len() - 1 - k] == adj[adj.len() - 1
                    - k]);
                assert(graph.adj_seq(root).contains(adj[adj.len() - 1 - k]));
            }
        }
        Ok(DepthFirst { nodes, stack, graph, root })
    }

    /// Produce the next traversal step, or `None` when no pending edge is
    /// left. A popped edge into an already visited child is reported as a
    /// cut and discarded; an edge into a fresh child marks it visited,
    /// queues its onward edges, and is reported as a spanning-structure
    /// step.
    pub fn next(&mut self) -> (r: Option<Step>)
        requires
            old(self).wf(),
        ensures
            final(self).wf(),
            final(self).g() == old(self).g(),
            final(self).root() == old(self).root(),
            match r {
                None => old(self).pending().len() == 0 && final(self).visited() == old(
                    self,
                ).visited() && final(self).pending() == old(self).pending(),
                Some(step) => {
                    &&& old(self).pending().len() > 0
                    &&& (step.sid, step.tid) == old(self).pending().last()
                    &&& final(self).measure() < old(self).measure()
                    &&& if old(self).visited().contains(step.tid) {
                        &&& step.cut
                        &&& final(self).visited() == old(self).visited()
                        &&& final(self).pending() == old(self).pending().drop_last()
                    } else {
                        &&& !step.cut
                        &&& final(self).visited() == old(self).visited().insert(step.tid)
                        &&& final(self).pending() == dfs_expand(
                            old(self).pending().drop_last(),
                            old(self).g().adj_seq(step.tid).reverse(),
                            old(self).visited(),
                            step.tid,
                            step.sid,
                        )
                    }
                },
            },
    {
        let popped = self.stack.pop();
        match popped {
            None => None,
            Some((parent, node)) => {
                if self.nodes.contains(&node) {
                    Some(Step::new(parent, node, true))
                } else {
                    let ghost visited0 = self.nodes@;
                    let ghost start = self.stack@;
                    let neighbors = match self.graph.neighbors(node) {
                        Ok(v) => v,
                        Err(_) => {
                            proof {
                                assert(false);
                            }
                            return None;
                        },
                    };
                    let ghost adj = self.graph.adj_seq(node);
                    let ghost adjr = adj.reverse();
                    proof {
                        self.graph.valid_facts();
                        let idx = choose|idx: int|
                            0 <= idx < self.graph.id_seq().len() && self.graph.id_seq()[idx]
                                == node;
                        assert forall|j: int| 0 <= j < adj.len() implies adj[j] != node
                            && self.graph.id_seq().contains(#[trigger] adj[j]) by {
                            assert(self.graph.adj_seq(self.graph.id_seq()[idx])[j] == adj[j]);
                        }
                    }
                    let mut i: usize = neighbors.len();
                    while i > 0
                        invariant
                            0 <= i <= adj.len(),
                            neighbors@ == adj,
                            adj == self.graph.adj_seq(node),
                            adjr == adj.reverse(),
                            self.stack@ == dfs_expand(
                                start,
                                adjr.take(adj.len() - i),
                                visited0,
                                node,
                                parent,
                            ),
                            self.nodes@ == visited0,
                            self.graph == old(self).graph,
                            self.root == old(self).root,
                            self.graph.valid(),
                            forall|j: int|
                                0 <= j < adj.len() ==> adj[j] != node
                                    && self.graph.id_seq().contains(#[trigger] adj[j]),
                            forall|v: usize|
                                visited0.contains(v) ==> self.graph.id_seq().contains(v),
                            self.graph.id_seq().contains(node),
                            forall|k: int|
                                0 <= k < self.stack@.len() ==> (visited0.contains(
                                    #[trigger] self.stack@[k].0,
                                ) || self.stack@[k].0 == node) && self.graph.id_seq().contains(
                                    self.stack@[k].1,
                                ) && self.graph.adj_seq(self.stack@[k].0).contains(
                                    self.stack@[k].1,
                                ),
                            self.stack@.len() <= start.len() + adj.len() - i,
                        decreases i,
                    {
                        i -= 1;
                        let nb = neighbors[i];
                        let ghost c = adj.len() - i - 1;
                        proof {
                            assert(adjr.take(c + 1) =~= adjr.take(c as int).push(adjr[c]));
                            assert(adjr[c] == adj[adj.len() - 1 - c]);
                            assert(adjr[c] == nb);
                            lemma_dfs_expand_push(
                                start,
                                adjr.take(c as int),
                                nb,
                                visited0,
                                node,
                                parent,
                            );
                        }
                        if nb == parent {
                            proof {
                                assert(self.stack@ == dfs_expand(
                                    start,
                                    adjr.take(c + 1),
                                    visited0,
                                    node,
                                    parent,
                                ));
                            }
                        } else if self.nodes.contains(&nb) {
                            let ghost before = self.stack@;
                            stack_retain(&mut self.stack, nb, node);
                            let ghost mid = self.stack@;
                            self.stack.push((node, nb));
                            proof {
                                assert forall|k: int| 0 <= k < self.stack@.len() implies (
                                visited0.contains(#[trigger] self.stack@[k].0) || self.stack@[k].0
                                    == node) && self.graph.id_seq().contains(
                                    self.stack@[k].1,
                                ) && self.graph.adj_seq(self.stack@[k].0).contains(
                                    self.stack@[k].1,
                                ) by {
                                    if k < mid.len() {
                                        assert(self.stack@[k] == mid[k]);
                                        assert(before.contains(mid[k]));
                                        let j = choose|j: int|
                                            0 <= j < before.len() && before[j] == mid[k];
                                    } else {
                                        assert(self.stack@[k] == (node, nb));
                                        assert(adj[i as int] == nb);
                                        assert(self.graph.adj_seq(node).contains(nb));
                                    }
                                }
                            }
                        } else {
                            let ghost mid2 = self.stack@;
                            self.stack.push((node, nb));
                            proof {
                                assert(adj[i as int] == nb);
                                assert(self.graph.adj_seq(node).contains(nb));
                                assert forall|k: int| 0 <= k < self.stack@.len() implies (
                                visited0.contains(#[trigger] self.stack@[k].0) || self.stack@[k].0
                                    == node) && self.graph.id_seq().contains(
                                    self.stack@[k].1,
                                ) && self.graph.adj_seq(self.stack@[k].0).contains(
                                    self.stack@[k].1,
                                ) by {
                                    if k == self.stack@.len() - 1 {
                                        assert(self.stack@[k] == (node, nb));
                                    } else {
                                        assert(self.stack@[k] == mid2[k]);
                                    }
                                }
                            }
                        }
                    }
                    self.nodes.insert(node);
                    proof {
                        assert(adjr.take(adj.len() as int) == adjr);
                        lemma_graph_weight_visit(self.graph, visited0, node);
                        assert(self.stack@.len() <= start.len() + adj.len());
                        assert(start.len() + 1 == old(self).stack@.len());
                        assert(graph_weight(self.graph, self.nodes@) + adj.len() + 1
                            == graph_weight(self.graph, visited0));
                        assert(final(self).measure() < old(self).measure());
                    }
                    Some(Step::new(parent, node, false))
                }
            },
        }
    }

    /// Drain the traversal into materialized results: the vertices in
    /// first-visit order (the popped source first) and every reported edge
    /// in step order. No vertex is listed twice, every listed vertex and
    /// every listed edge endpoint is a vertex of the graph, every vertex
    /// after the first was discovered through one of the reported edges,
    /// the results are empty exactly when no edge was pending, and the
    /// first entries come from the first pending edge examined.
    pub fn into_table(self) -> (r: (Vec<usize>, Vec<(usize, usize)>))
        requires
            self.wf(),
        ensures
            r.0@.no_duplicates(),
            forall|k: int| 0 <= k < r.0@.len() ==> self.g().id_seq().contains(#[trigger] r.0@[k]),
            forall|k: int|
                0 <= k < r.1@.len() ==> self.g().id_seq().contains(#[trigger] r.1@[k].0)
                    && self.g().id_seq().contains(r.1@[k].1),
            r.0@.len() <= r.1@.len() + 1,
            (r.0@.len() == 0 <==> self.pending().len() == 0),
            (r.1@.len() == 0 <==> self.pending().len() == 0),
            r.0@.len() > 0 ==> r.0@[0] == self.pending().last().0,
            r.1@.len() > 0 ==> r.1@[0] == self.pending().last(),
            r.1@ == step_pairs(dfs_run(self.g(), self.visited(), self.pending())),
            r.0@ == step_nodes(dfs_run(self.g(), self.visited(), self.pending())),
    {
        let mut t = self;
        let mut nodes: Vec<usize> = Vec::new();
        let mut edges: Vec<(usize, usize)> = Vec::new();
        let mut go = true;
        let ghost mut steps: Seq<Step> = Seq::empty();
        while go
            invariant
                t.wf(),
                t.g() == self.g(),
                nodes@.no_duplicates(),
                forall|k: int| 0 <= k < nodes@.len() ==> t.visited().contains(#[trigger] nodes@[k]),
                forall|v: usize| t.visited().contains(v) ==> t.g().id_seq().contains(v),
                forall|k: int|
                    0 <= k < edges@.len() ==> t.g().id_seq().contains(#[trigger] edges@[k].0)
                        && t.g().id_seq().contains(edges@[k].1),
                nodes@.len() <= edges@.len() + 1,
                nodes@.len() == 0 ==> t.visited() == self.visited() && t.pending()
                    == self.pending(),
                (nodes@.len() == 0 <==> edges@.len() == 0),
                self.pending().len() == 0 ==> nodes@.len() == 0,
                nodes@.len() > 0 ==> nodes@[0] == self.pending().last().0,
                edges@.len() > 0 ==> edges@[0] == self.pending().last(),
                dfs_run(self.g(), self.visited(), self.pending()) == steps + dfs_run(
                    t.g(),
                    t.visited(),
                    t.pending(),
                ),
                edges@ == step_pairs(steps),
                nodes@ == step_nodes(steps),
                !go ==> t.pending().len() == 0,
            decreases 2 * t.measure() + (if go {
                1int
            } else {
                0int
            }),
        {
            let ghost told = t;
            match t.next() {
                None => {
                    go = false;
                },
                Some(step) => {
                    proof {
                        assert(told.visited().contains(
                            told.pending()[told.pending().len() - 1].0,
                        ));
                        assert(step.sid == told.pending().last().0);
                        assert(told.visited().contains(step.sid));
                        assert(run_wf(told.g(), told.visited(), told.pending())) by {
                            assert forall|k2: int|
                                0 <= k2 < told.pending().len() implies told.g().id_seq().contains(
                                (#[trigger] told.pending()[k2]).1,
                            ) by {
                                assert(told.visited().contains(told.pending()[k2].0));
                            }
                        }
                        lemma_dfs_run_step(told.g(), told.visited(), told.pending());
                        assert(dfs_run(told.g(), told.visited(), told.pending()) == seq![step]
                            + dfs_run(t.g(), t.visited(), t.pending()));
                    }
                    let ghost steps0 = steps;
                    proof {
                        steps = steps.push(step);
                        assert(steps0 + (seq![step] + dfs_run(t.g(), t.visited(), t.pending()))
                            =~= steps + dfs_run(t.g(), t.visited(), t.pending()));
                        assert(steps.drop_last() =~= steps0);
                        assert(steps.last() == step);
                        assert(step_pairs(steps) =~= step_pairs(steps0).push(
                            (step.sid, step.tid),
                        ));
                        assert(noncut_tids(steps) == if step.cut {
                            noncut_tids(steps0)
                        } else {
                            noncut_tids(steps0).push(step.tid)
                        });
                    }
                    if nodes.len() == 0 {
                        nodes.push(step.sid);
                        proof {
                            assert(steps0.len() == 0);
                            assert(noncut_tids(steps0) =~= Seq::<usize>::empty());
                            assert(steps[0] == step);
                        }
                    } else {
                        proof {
                            assert(steps0.len() > 0);
                            assert(steps[0] == steps0[0]);
                            assert(step_nodes(steps0) == seq![steps0[0].sid] + noncut_tids(
                                steps0,
                            ));
                        }
                    }
                    if !step.cut {
                        nodes.push(step.tid);
                        proof {
                            assert(!told.visited().contains(step.tid));
                            assert forall|k: int, j: int|
                                0 <= k < j < nodes@.len() implies nodes@[k] != nodes@[j] by {
                                if j == nodes@.len() - 1 {
                                    assert(told.visited().contains(nodes@[k]));
                                }
                            }
                        }
                    }
                    edges.push((step.sid, step.tid));
                    proof {
                        assert(nodes@ =~= step_nodes(steps));
                    }
                },
            }
        }
        proof {
            assert(run_wf(t.g(), t.visited(), t.pending())) by {
                assert forall|k2: int|
                    0 <= k2 < t.pending().len() implies t.g().id_seq().contains(
                    (#[trigger] t.pending()[k2]).1,
                ) by {
                    assert(t.visited().contains(t.pending()[k2].0));
                }
            }
            lemma_dfs_run_step(t.g(), t.visited(), t.pending());
            assert(dfs_run(t.g(), t.visited(), t.pending()) == Seq::<Step>::empty());
            assert(steps + Seq::<Step>::empty() =~= steps);
        }
        (nodes, edges)
    }
}

} // verus!
