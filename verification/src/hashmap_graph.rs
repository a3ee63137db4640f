//! The concrete adjacency-list store: stable external vertex ids mapped to
//! dense internal indices, per-vertex neighbor lists, and the undirected
//! edge list. Implements the [`Graph`] capability.

use vstd::prelude::*;

use crate::depth_first::{dfs_run, lemma_dfs_run_step, noncut_tids, run_wf, step_pairs};
use crate::graph::{Error, Graph, Step};

verus! {

broadcast use vstd::std_specs::hash::group_hash_axioms, vstd::seq_lib::group_seq_properties;

/// Scan a vector of ids for `x`.
fn vec_contains(v: &Vec<usize>, x: usize) -> (r: bool)
    ensures
        r == v@.contains(x),
{
    let mut i: usize = 0;
    while i < v.len()
        invariant
            0 <= i <= v@.len(),
            forall|j: int| 0 <= j < i ==> v@[j] != x,
        decreases v@.len() - i,
    {
        if v[i] == x {
            return true;
        }
        i += 1;
    }
    false
}

/// An adjacency-list graph. `indices` maps each external id to the dense
/// index it was assigned at insertion; `ids` lists ids in insertion order;
/// `adjacency[i]` lists the neighbor ids of `ids[i]` in insertion order;
/// `edges` records each undirected edge once, as the ordered pair in which
/// it was added.
pub struct HashMapGraph {
    indices: std::collections::HashMap<usize, usize>,
    adjacency: Vec<Vec<usize>>,
    ids: Vec<usize>,
    edges: Vec<(usize, usize)>,
}

impl HashMapGraph {
    /// The neighbor list stored at dense index `i`.
    pub closed spec fn adj_at(&self, i: int) -> Seq<usize> {
        self.adjacency@[i]@
    }

    /// The id-to-index map view.
    pub closed spec fn idx(&self) -> Map<usize, usize> {
        self.indices@
    }

    /// Structural well-formedness: the dense index map and the id sequence
    /// agree, neighbor lists mention only present ids (never the vertex
    /// itself, never twice), and the adjacency lists and the edge sequence
    /// describe exactly the same undirected edges, each recorded once.
    pub closed spec fn wf(&self) -> bool {
        &&& self.adjacency@.len() == self.ids@.len()
        &&& self.ids@.no_duplicates()
        &&& forall|i: int|
            0 <= i < self.ids@.len() ==> self.idx().contains_key(#[trigger] self.ids@[i])
                && self.idx()[self.ids@[i]] == i
        &&& forall|k: usize| #[trigger]
            self.idx().contains_key(k) ==> self.idx()[k] < self.ids@.len()
                && self.ids@[self.idx()[k] as int] == k
        &&& forall|i: int|
            0 <= i < self.ids@.len() ==> (#[trigger] self.adj_at(i)).no_duplicates()
        &&& forall|i: int, j: int|
            0 <= i < self.ids@.len() && 0 <= j < self.adj_at(i).len() ==> #[trigger] self.adj_at(
                i,
            )[j] != self.ids@[i] && self.idx().contains_key(self.adj_at(i)[j])
        &&& forall|i: int, j: int|
            0 <= i < self.ids@.len() && 0 <= j < self.adj_at(i).len() ==> self.edges@.contains(
                (self.ids@[i], #[trigger] self.adj_at(i)[j]),
            ) || self.edges@.contains((self.adj_at(i)[j], self.ids@[i]))
        &&& forall|k: int|
            0 <= k < self.edges@.len() ==> {
                let e = #[trigger] self.edges@[k];
                &&& self.idx().contains_key(e.0)
                &&& self.idx().contains_key(e.1)
                &&& e.0 != e.1
                &&& self.adj_at(self.idx()[e.0] as int).contains(e.1)
                &&& self.adj_at(self.idx()[e.1] as int).contains(e.0)
            }
        &&& forall|p: int, q: int|
            0 <= p < q < self.edges@.len() ==> #[trigger] self.edges@[p] != #[trigger] self.edges@[q]
                && self.edges@[p] != (self.edges@[q].1, self.edges@[q].0)
    }

    /// A fresh store with no vertices and no edges.
    pub fn new() -> (r: Self)
        ensures
            r.wf(),
            r.id_seq() == Seq::<usize>::empty(),
            r.edge_seq() == Seq::<(usize, usize)>::empty(),
    {
        HashMapGraph {
            indices: std::collections::HashMap::new(),
            adjacency: Vec::new(),
            ids: Vec::new(),
            edges: Vec::new(),
        }
    }

    /// Insert a fresh vertex. Fails with `DuplicateId` exactly when the id
    /// is already present; on failure the store is unchanged.
    pub fn add_node(&mut self, id: usize) -> (r: Result<(), Error>)
        requires
            old(self).wf(),
        ensures
            final(self).wf(),
            match r {
                Ok(()) => {
                    &&& !old(self).id_seq().contains(id)
                    &&& final(self).id_seq() == old(self).id_seq().push(id)
                    &&& final(self).edge_seq() == old(self).edge_seq()
                    &&& final(self).adj_seq(id) == Seq::<usize>::empty()
                    &&& forall|o: usize|
                        old(self).id_seq().contains(o) ==> #[trigger] final(self).adj_seq(o)
                            == old(self).adj_seq(o)
                },
                Err(e) => {
                    &&& e == Error::DuplicateId(id)
                    &&& old(self).id_seq().contains(id)
                    &&& *final(self) == *old(self)
                },
            },
    {
        if self.indices.contains_key(&id) {
            proof {
                assert(self.idx().contains_key(id));
                assert(self.ids@[self.idx()[id] as int] == id);
                assert(self.id_seq().contains(id));
            }
            return Err(Error::DuplicateId(id));
        }
        proof {
            if self.id_seq().contains(id) {
                let i = choose|i: int| 0 <= i < self.ids@.len() && self.ids@[i] == id;
                assert(self.idx().contains_key(id));
            }
        }
        let n = self.ids.len();
        self.indices.insert(id, n);
        self.ids.push(id);
        self.adjacency.push(Vec::new());
        proof {
            lemma_add_node_wf(*old(self), *self, id, n);
            assert forall|o: usize| old(self).id_seq().contains(o) implies #[trigger] self.adj_seq(
                o,
            ) == old(self).adj_seq(o) by {
                let i = choose|i: int| 0 <= i < old(self).ids@.len() && old(self).ids@[i] == o;
                assert(old(self).idx().contains_key(o));
                assert(self.adjacency@[old(self).idx()[o] as int] == old(self).adjacency@[old(
                    self,
                ).idx()[o] as int]);
            }
        }
        Ok(())
    }

    /// Insert the undirected edge `{sid, tid}`. Fails with `UnknownId` when
    /// an endpoint is absent (the source checked first), and with
    /// `DuplicateEdge` when the unordered pair is already present or when
    /// `sid == tid` (self-loops are rejected). On failure the store is
    /// unchanged.
    pub fn add_edge(&mut self, sid: usize, tid: usize) -> (r: Result<(), Error>)
        requires
            old(self).wf(),
        ensures
            final(self).wf(),
            match r {
                Ok(()) => {
                    &&& old(self).id_seq().contains(sid)
                    &&& old(self).id_seq().contains(tid)
                    &&& sid != tid
                    &&& !old(self).adj_seq(sid).contains(tid)
                    &&& final(self).id_seq() == old(self).id_seq()
                    &&& final(self).edge_seq() == old(self).edge_seq().push((sid, tid))
                    &&& final(self).adj_seq(sid) == old(self).adj_seq(sid).push(tid)
                    &&& final(self).adj_seq(tid) == old(self).adj_seq(tid).push(sid)
                    &&& forall|o: usize|
                        old(self).id_seq().contains(o) && o != sid && o != tid
                            ==> #[trigger] final(self).adj_seq(o) == old(self).adj_seq(o)
                },
                Err(e) => {
                    &&& *final(self) == *old(self)
                    &&& {
                        ||| (e == Error::UnknownId(sid) && !old(self).id_seq().contains(sid))
                        ||| (e == Error::UnknownId(tid) && old(self).id_seq().contains(sid)
                            && !old(self).id_seq().contains(tid))
                        ||| (e == Error::DuplicateEdge(sid, tid)
                            && old(self).id_seq().contains(sid)
                            && old(self).id_seq().contains(tid)
                            && (sid == tid || old(self).adj_seq(sid).contains(tid)))
                    }
                },
            },
    {
        let source_index = match self.index_for(sid) {
            Ok(i) => i,
            Err(e) => {
                return Err(e);
            },
        };
        let target_index = match self.index_for(tid) {
            Ok(i) => i,
            Err(e) => {
                return Err(e);
            },
        };
        if sid == tid {
            return Err(Error::DuplicateEdge(sid, tid));
        }
        if vec_contains(&self.adjacency[source_index], tid) {
            return Err(Error::DuplicateEdge(sid, tid));
        }
        proof {
            lemma_wf_symmetry(*self, sid, tid);
        }
        self.adjacency[source_index].push(tid);
        self.adjacency[target_index].push(sid);
        self.edges.push((sid, tid));
        proof {
            lemma_add_edge_wf(*old(self), *self, sid, tid);
        }
        Ok(())
    }

    /// The dense index assigned to `id`; `UnknownId` exactly when `id` is
    /// absent.
    fn index_for(&self, id: usize) -> (r: Result<usize, Error>)
        requires
            self.wf(),
        ensures
            match r {
                Ok(i) => self.idx().contains_key(id) && i == self.idx()[id] && i < self.ids@.len()
                    && self.ids@[i as int] == id && self.id_seq().contains(id),
                Err(e) => e == Error::UnknownId(id) && !self.id_seq().contains(id),
            },
    {
        match self.indices.get(&id) {
            Some(index) => {
                proof {
                    assert(self.ids@[self.idx()[id] as int] == id);
                    assert(self.id_seq().contains(id));
                }
                Ok(*index)
            },
            None => {
                proof {
                    if self.id_seq().contains(id) {
                        let i = choose|i: int| 0 <= i < self.ids@.len() && self.ids@[i] == id;
                        assert(self.idx().contains_key(id));
                    }
                }
                Err(Error::UnknownId(id))
            },
        }
    }
}

/// The neighbor row of dense index `i` in an index-aligned table.
pub open spec fn row(t: &Vec<Vec<usize>>, i: int) -> Seq<usize> {
    t@[i]@
}

/// Every listed neighbor is a valid dense index and never the row's own.
pub open spec fn table_entries_ok(t: &Vec<Vec<usize>>) -> bool {
    forall|i: int, j: int|
        0 <= i < t@.len() && 0 <= j < row(t, i).len() ==> (#[trigger] row(t, i)[j]) < t@.len()
            && row(t, i)[j] != i
}

/// No row lists the same neighbor twice.
pub open spec fn table_rows_distinct(t: &Vec<Vec<usize>>) -> bool {
    forall|i: int| 0 <= i < t@.len() ==> (#[trigger] row(t, i)).no_duplicates()
}

/// Every neighbor relation is mirrored: if row `i` lists `u`, row `u`
/// lists `i`.
pub open spec fn table_symmetric(t: &Vec<Vec<usize>>) -> bool {
    forall|i: int, j: int|
        0 <= i < t@.len() && 0 <= j < row(t, i).len() && row(t, i)[j] < t@.len() ==> row(
            t,
            (#[trigger] row(t, i)[j]) as int,
        ).contains(i as usize)
}

/// What an index-aligned adjacency table must look like for bulk
/// construction to succeed.
pub open spec fn table_wf(t: &Vec<Vec<usize>>) -> bool {
    table_entries_ok(t) && table_rows_distinct(t) && table_symmetric(t)
}

/// What validating entry `j` of row `i` reports, in check order: an
/// out-of-range target, a self-reference, a target repeated later in the
/// row, an unmirrored relation — or nothing.
pub open spec fn cell_err(t: &Vec<Vec<usize>>, i: int, j: int) -> Option<Error> {
    let v = row(t, i)[j];
    if v >= t@.len() {
        Some(Error::UnknownId(v))
    } else if v == i {
        Some(Error::DuplicateEdge(i as usize, i as usize))
    } else if exists|j3: int| j < j3 < row(t, i).len() && row(t, i)[j3] == v {
        Some(Error::DuplicateEdge(i as usize, v))
    } else if !row(t, v as int).contains(i as usize) {
        Some(Error::MissingEdge(v, i as usize))
    } else {
        None
    }
}

/// The edges the first `j` entries of row `i` contribute: one pair
/// `(i, target)` per listed target larger than `i`.
pub open spec fn edges_of_row(t: &Vec<Vec<usize>>, i: int, j: int) -> Seq<(usize, usize)>
    decreases j,
{
    if j <= 0 {
        Seq::empty()
    } else {
        let acc = edges_of_row(t, i, j - 1);
        let tt = row(t, i)[j - 1];
        if i < tt {
            acc.push((i as usize, tt))
        } else {
            acc
        }
    }
}

/// The edges the first `i` rows of an adjacency table contribute, in scan
/// order, each unordered pair once with its smaller index first.
pub open spec fn edges_of_table(t: &Vec<Vec<usize>>, i: int) -> Seq<(usize, usize)>
    decreases i,
{
    if i <= 0 {
        Seq::empty()
    } else {
        edges_of_table(t, i - 1) + edges_of_row(t, i - 1, row(t, i - 1).len() as int)
    }
}

/// When every cell scanned before position `(i, j)` passed all four
/// checks, no earlier cell reports an error.
proof fn lemma_clean_prefix(t: &Vec<Vec<usize>>, i: int, j: int)
    requires
        0 <= i < t@.len(),
        0 <= j <= row(t, i).len(),
        forall|i2: int, j2: int|
            0 <= i2 < i && 0 <= j2 < row(t, i2).len() ==> (#[trigger] row(t, i2)[j2]) < t@.len()
                && row(t, i2)[j2] != i2 && !(exists|j3: int|
                j2 < j3 < row(t, i2).len() && row(t, i2)[j3] == row(t, i2)[j2]) && row(
                t,
                (row(t, i2)[j2]) as int,
            ).contains(i2 as usize),
        forall|j2: int|
            0 <= j2 < j ==> (#[trigger] row(t, i)[j2]) < t@.len() && row(t, i)[j2] != i && !(
            exists|j3: int| j2 < j3 < row(t, i).len() && row(t, i)[j3] == row(t, i)[j2]) && row(
                t,
                (row(t, i)[j2]) as int,
            ).contains(i as usize),
    ensures
        forall|i2: int, j2: int|
            0 <= i2 < t@.len() && 0 <= j2 < row(t, i2).len() && (i2 < i || (i2 == i && j2 < j))
                ==> #[trigger] cell_err(t, i2, j2) is None,
{
    assert forall|i2: int, j2: int|
        0 <= i2 < t@.len() && 0 <= j2 < row(t, i2).len() && (i2 < i || (i2 == i && j2 < j))
            implies #[trigger] cell_err(t, i2, j2) is None by {
        assert(row(t, i2)[j2] < t@.len());
    }
}

/// Scan `v` for `x`, starting at position `from`.
fn vec_contains_from(v: &Vec<usize>, from: usize, x: usize) -> (r: bool)
    requires
        from <= v@.len(),
    ensures
        r == exists|j: int| from <= j < v@.len() && v@[j] == x,
{
    let mut i: usize = from;
    while i < v.len()
        invariant
            from <= i <= v@.len(),
            forall|j: int| from <= j < i ==> v@[j] != x,
        decreases v@.len() - i,
    {
        if v[i] == x {
            return true;
        }
        i += 1;
    }
    false
}

/// What a flat edge list must look like for bulk construction to succeed:
/// no self-loop and no unordered pair listed twice.
pub open spec fn edges_wf(s: Seq<(usize, usize)>) -> bool {
    &&& forall|k: int| 0 <= k < s.len() ==> (#[trigger] s[k]).0 != s[k].1
    &&& forall|j: int, k: int|
        0 <= j < k < s.len() ==> #[trigger] s[k] != #[trigger] s[j] && s[k] != (s[j].1, s[j].0)
}

/// Whether `id` occurs as an endpoint in the first `k` entries of `s`.
pub open spec fn endpoint_in(s: Seq<(usize, usize)>, k: int, id: usize) -> bool {
    exists|j: int| 0 <= j < k && ((#[trigger] s[j]).0 == id || s[j].1 == id)
}

/// The endpoints of an edge list in order of first appearance, the source
/// of each pair before its target.
pub open spec fn ids_of_edges(s: Seq<(usize, usize)>) -> Seq<usize>
    decreases s.len(),
{
    if s.len() == 0 {
        Seq::empty()
    } else {
        let acc = ids_of_edges(s.drop_last());
        let e = s.last();
        let acc1 = if acc.contains(e.0) {
            acc
        } else {
            acc.push(e.0)
        };
        if acc1.contains(e.1) {
            acc1
        } else {
            acc1.push(e.1)
        }
    }
}

/// The neighbor list `id` accumulates from an edge list: the opposite
/// endpoint of each edge touching `id`, in listed order.
pub open spec fn adj_of_edges(s: Seq<(usize, usize)>, id: usize) -> Seq<usize>
    decreases s.len(),
{
    if s.len() == 0 {
        Seq::empty()
    } else {
        let acc = adj_of_edges(s.drop_last(), id);
        let e = s.last();
        if e.0 == id {
            acc.push(e.1)
        } else if e.1 == id {
            acc.push(e.0)
        } else {
            acc
        }
    }
}

/// An id touched by no edge of the list accumulates no neighbors.
proof fn lemma_adj_of_edges_absent(s: Seq<(usize, usize)>, id: usize)
    requires
        forall|j: int| 0 <= j < s.len() ==> (#[trigger] s[j]).0 != id && s[j].1 != id,
    ensures
        adj_of_edges(s, id) == Seq::<usize>::empty(),
    decreases s.len(),
{
    if s.len() > 0 {
        lemma_adj_of_edges_absent(s.drop_last(), id);
        assert(s[s.len() - 1].0 != id);
    }
}

impl HashMapGraph {
    /// Build a store from a flat list of undirected edges, creating each
    /// endpoint on first sight. Succeeds exactly when the list holds no
    /// self-loop and no unordered pair twice; the resulting store then
    /// holds the edges exactly as listed and the endpoints in order of
    /// first appearance.
    pub fn from_edges(list: Vec<(usize, usize)>) -> (r: Result<Self, Error>)
        ensures
            r.is_ok() <==> edges_wf(list@),
            match r {
                Ok(g) => {
                    &&& g.wf()
                    &&& g.edge_seq() == list@
                    &&& g.id_seq() == ids_of_edges(list@)
                    &&& forall|id: usize|
                        g.id_seq().contains(id) <==> endpoint_in(list@, list@.len() as int, id)
                    &&& forall|id: usize|
                        g.id_seq().contains(id) ==> #[trigger] g.adj_seq(id) == adj_of_edges(
                            list@,
                            id,
                        )
                },
                Err(e) => exists|k: int|
                    0 <= k < list@.len() && edges_wf(list@.take(k)) && e == Error::DuplicateEdge(
                        (#[trigger] list@[k]).0,
                        list@[k].1,
                    ) && (list@[k].0 == list@[k].1 || exists|j: int|
                        0 <= j < k && ((#[trigger] list@[j]) == list@[k] || list@[j] == (
                        list@[k].1,
                        list@[k].0,
                        ))),
            },
    {
        let mut result = HashMapGraph::new();
        let mut k: usize = 0;
        while k < list.len()
            invariant
                0 <= k <= list@.len(),
                result.wf(),
                result.edge_seq() == list@.take(k as int),
                edges_wf(list@.take(k as int)),
                forall|id: usize|
                    result.id_seq().contains(id) <==> endpoint_in(list@, k as int, id),
                result.id_seq() == ids_of_edges(list@.take(k as int)),
                forall|id: usize|
                    result.id_seq().contains(id) ==> #[trigger] result.adj_seq(id)
                        == adj_of_edges(list@.take(k as int), id),
            decreases list@.len() - k,
        {
            let (s, t) = list[k];
            let ghost g0 = result;
            if !result.has_id(s) {
                let a = result.add_node(s);
                proof {
                    assert(a is Ok);
                    assert(result.id_seq().last() == s);
                }
            }
            assert(result.id_seq().contains(s));
            let ghost g1 = result;
            if !result.has_id(t) {
                let a = result.add_node(t);
                proof {
                    assert(a is Ok);
                    assert(result.id_seq().last() == t);
                }
            }
            assert(result.id_seq().contains(s) && result.id_seq().contains(t));
            let ghost g2 = result;
            match result.add_edge(s, t) {
                Ok(()) => {},
                Err(e) => {
                    proof {
                        assert(e == Error::DuplicateEdge(s, t));
                        if s != t {
                            assert(result.adj_seq(s).contains(t));
                            lemma_adj_to_edge(result, s, t);
                            let j = choose|j: int|
                                0 <= j < result.edges@.len() && (result.edges@[j] == (s, t)
                                    || result.edges@[j] == (t, s));
                            assert(list@.take(k as int)[j] == list@[j]);
                            assert(!edges_wf(list@));
                        } else {
                            assert(list@[k as int].0 == list@[k as int].1);
                            assert(!edges_wf(list@));
                        }
                        assert(list@[k as int] == (s, t));
                    }
                    return Err(e);
                },
            }
            proof {
                assert(list@.take(k + 1 as int) == list@.take(k as int).push((s, t)));
                assert(edges_wf(list@.take(k + 1 as int))) by {
                    let p = list@.take(k + 1 as int);
                    assert forall|j2: int, k2: int| 0 <= j2 < k2 < p.len() implies #[trigger] p[k2]
                        != #[trigger] p[j2] && p[k2] != (p[j2].1, p[j2].0) by {
                        if k2 == k as int {
                            assert(p[k2] == (s, t));
                            assert(p[j2] == list@.take(k as int)[j2]);
                        }
                    }
                }
                assert forall|id: usize| result.id_seq().contains(id) <==> endpoint_in(
                    list@,
                    k + 1 as int,
                    id,
                ) by {
                    if endpoint_in(list@, k + 1 as int, id) && !endpoint_in(list@, k as int, id) {
                        assert(list@[k as int].0 == id || list@[k as int].1 == id);
                    }
                }
                let prefix = list@.take(k as int);
                let next = list@.take(k + 1 as int);
                assert(next.drop_last() =~= prefix);
                assert(next.last() == (s, t));
                assert(g1.id_seq() == if g0.id_seq().contains(s) {
                    g0.id_seq()
                } else {
                    g0.id_seq().push(s)
                });
                assert(g2.id_seq() == if g1.id_seq().contains(t) {
                    g1.id_seq()
                } else {
                    g1.id_seq().push(t)
                });
                assert(result.id_seq() == ids_of_edges(next));
                assert forall|id: usize|
                    result.id_seq().contains(id) implies #[trigger] result.adj_seq(id)
                    == adj_of_edges(next, id) by {
                    if id == s {
                        assert(result.adj_seq(s) == g2.adj_seq(s).push(t));
                        if g0.id_seq().contains(s) {
                            assert(g2.adj_seq(s) == g0.adj_seq(s));
                            assert(g0.adj_seq(s) == adj_of_edges(prefix, s));
                        } else {
                            assert(g1.adj_seq(s) == Seq::<usize>::empty());
                            assert(g2.adj_seq(s) == Seq::<usize>::empty());
                            assert(!endpoint_in(list@, k as int, s));
                            assert forall|j2: int|
                                0 <= j2 < prefix.len() implies (#[trigger] prefix[j2]).0 != s
                                    && prefix[j2].1 != s by {
                                assert(prefix[j2] == list@[j2]);
                            }
                            lemma_adj_of_edges_absent(prefix, s);
                        }
                        assert(adj_of_edges(next, s) == adj_of_edges(prefix, s).push(t));
                    } else if id == t {
                        assert(result.adj_seq(t) == g2.adj_seq(t).push(s));
                        if g1.id_seq().contains(t) {
                            assert(g2.adj_seq(t) == g1.adj_seq(t));
                            if g0.id_seq().contains(t) {
                                assert(g1.adj_seq(t) == g0.adj_seq(t));
                                assert(g0.adj_seq(t) == adj_of_edges(prefix, t));
                            } else {
                                assert(t == s);
                                assert(false);
                            }
                        } else {
                            assert(g2.adj_seq(t) == Seq::<usize>::empty());
                            assert(!g0.id_seq().contains(t));
                            assert(!endpoint_in(list@, k as int, t));
                            assert forall|j2: int|
                                0 <= j2 < prefix.len() implies (#[trigger] prefix[j2]).0 != t
                                    && prefix[j2].1 != t by {
                                assert(prefix[j2] == list@[j2]);
                            }
                            lemma_adj_of_edges_absent(prefix, t);
                        }
                        assert(adj_of_edges(next, t) == adj_of_edges(prefix, t).push(s));
                    } else {
                        assert(g0.id_seq().contains(id));
                        assert(g1.adj_seq(id) == g0.adj_seq(id));
                        assert(g2.adj_seq(id) == g1.adj_seq(id));
                        assert(result.adj_seq(id) == g2.adj_seq(id));
                        assert(g0.adj_seq(id) == adj_of_edges(prefix, id));
                        assert(adj_of_edges(next, id) == adj_of_edges(prefix, id));
                    }
                }
            }
            k += 1;
        }
        proof {
            assert(list@.take(list@.len() as int) == list@);
        }
        Ok(result)
    }

    /// Build a store from a full index-aligned adjacency table: vertex `i`
    /// is given id `i`, and row `i` lists its neighbors. The table is
    /// validated: an out-of-range neighbor fails with `UnknownId`, a row
    /// listing the same neighbor twice (or itself) fails with
    /// `DuplicateEdge`, and an unmirrored neighbor relation fails with
    /// `MissingEdge(a, b)` where row `b` lists `a` but row `a` does not
    /// list `b`.
    pub fn from_adjacency(table: Vec<Vec<usize>>) -> (r: Result<Self, Error>)
        ensures
            r.is_ok() <==> table_wf(&table),
            match r {
                Ok(g) => {
                    &&& g.wf()
                    &&& g.id_seq() == Seq::new(table@.len(), |i: int| i as usize)
                    &&& forall|i: int| 0 <= i < table@.len() ==> g.adj_at(i) == row(&table, i)
                    &&& forall|i: int|
                        0 <= i < table@.len() ==> #[trigger] g.adj_seq(i as usize) == row(
                            &table,
                            i,
                        )
                    &&& g.edge_seq() == edges_of_table(&table, table@.len() as int)
                    &&& forall|k: int|
                        0 <= k < g.edge_seq().len() ==> (#[trigger] g.edge_seq()[k]).0
                            < g.edge_seq()[k].1
                    &&& forall|s: usize, t: usize|
                        s < t && t < table@.len() ==> (#[trigger] g.edge_seq().contains((s, t))
                            <==> row(&table, s as int).contains(t))
                },
                Err(e) => match e {
                    Error::UnknownId(u) => u >= table@.len() && exists|i: int, j: int|
                        0 <= i < table@.len() && 0 <= j < row(&table, i).len() && #[trigger] row(
                            &table,
                            i,
                        )[j] == u,
                    Error::DuplicateEdge(a, b) => a < table@.len() && ((a == b && row(
                        &table,
                        a as int,
                    ).contains(a)) || exists|j1: int, j2: int|
                        0 <= j1 < j2 < row(&table, a as int).len() && #[trigger] row(
                            &table,
                            a as int,
                        )[j1] == b && #[trigger] row(&table, a as int)[j2] == b),
                    Error::MissingEdge(a, b) => a < table@.len() && b < table@.len() && row(
                        &table,
                        b as int,
                    ).contains(a) && !row(&table, a as int).contains(b),
                    Error::DuplicateId(_) => false,
                },
            },
            table_entries_ok(&table) && table_rows_distinct(&table) && !table_wf(&table)
                ==> r matches Err(Error::MissingEdge(..)),
            match r {
                Ok(_) => true,
                Err(e) => exists|i: int, j: int|
                    0 <= i < table@.len() && 0 <= j < row(&table, i).len() && #[trigger] cell_err(
                        &table,
                        i,
                        j,
                    ) == Some(e) && (forall|i2: int, j2: int|
                        0 <= i2 < table@.len() && 0 <= j2 < row(&table, i2).len() && (i2 < i || (
                        i2 == i && j2 < j)) ==> #[trigger] cell_err(&table, i2, j2) is None),
            },
    {
        let n = table.len();
        let mut edges: Vec<(usize, usize)> = Vec::new();
        let mut i: usize = 0;
        while i < n
            invariant
                0 <= i <= n,
                n == table@.len(),
                forall|i2: int, j2: int|
                    0 <= i2 < i && 0 <= j2 < row(&table, i2).len() ==> (#[trigger] row(
                        &table,
                        i2,
                    )[j2]) < n && row(&table, i2)[j2] != i2 && !(exists|j3: int|
                        j2 < j3 < row(&table, i2).len() && row(&table, i2)[j3] == row(
                            &table,
                            i2,
                        )[j2]) && row(&table, (row(&table, i2)[j2]) as int).contains(i2 as usize),
                forall|k: int|
                    0 <= k < edges@.len() ==> {
                        let e = #[trigger] edges@[k];
                        e.0 < e.1 && e.1 < n && e.0 < i && row(&table, e.0 as int).contains(e.1)
                    },
                forall|p: int, q: int| 0 <= p < q < edges@.len() ==> edges@[p] != edges@[q],
                forall|s: int, jj: int|
                    0 <= s < i && 0 <= jj < row(&table, s).len() && s < row(&table, s)[jj]
                        ==> edges@.contains((s as usize, #[trigger] row(&table, s)[jj])),
                edges@ == edges_of_table(&table, i as int),
            decreases n - i,
        {
            let m = table[i].len();
            let mut j: usize = 0;
            while j < m
                invariant
                    0 <= j <= m,
                    0 <= i < n,
                    n == table@.len(),
                    m == row(&table, i as int).len(),
                    forall|i2: int, j2: int|
                        0 <= i2 < i && 0 <= j2 < row(&table, i2).len() ==> (#[trigger] row(
                            &table,
                            i2,
                        )[j2]) < n && row(&table, i2)[j2] != i2 && !(exists|j3: int|
                            j2 < j3 < row(&table, i2).len() && row(&table, i2)[j3] == row(
                                &table,
                                i2,
                            )[j2]) && row(&table, (row(&table, i2)[j2]) as int).contains(
                            i2 as usize,
                        ),
                    forall|j2: int|
                        0 <= j2 < j ==> (#[trigger] row(&table, i as int)[j2]) < n && row(
                            &table,
                            i as int,
                        )[j2] != i && !(exists|j3: int|
                            j2 < j3 < row(&table, i as int).len() && row(&table, i as int)[j3]
                                == row(&table, i as int)[j2]) && row(
                            &table,
                            (row(&table, i as int)[j2]) as int,
                        ).contains(i as usize),
                    forall|k: int|
                        0 <= k < edges@.len() ==> {
                            let e = #[trigger] edges@[k];
                            e.0 < e.1 && e.1 < n && (e.0 < i || (e.0 == i && exists|jj: int|
                                0 <= jj < j && row(&table, i as int)[jj] == e.1)) && row(
                                &table,
                                e.0 as int,
                            ).contains(e.1)
                        },
                    forall|p: int, q: int| 0 <= p < q < edges@.len() ==> edges@[p] != edges@[q],
                    forall|s: int, jj: int|
                        0 <= s < i && 0 <= jj < row(&table, s).len() && s < row(&table, s)[jj]
                            ==> edges@.contains((s as usize, #[trigger] row(&table, s)[jj])),
                    forall|jj: int|
                        0 <= jj < j && i < row(&table, i as int)[jj] ==> edges@.contains(
                            (i, #[trigger] row(&table, i as int)[jj]),
                        ),
                    edges@ == edges_of_table(&table, i as int) + edges_of_row(
                        &table,
                        i as int,
                        j as int,
                    ),
                decreases m - j,
            {
                let t = table[i][j];
                if t >= n {
                    proof {
                        if table_wf(&table) {
                            assert(row(&table, i as int)[j as int] < table@.len());
                        }
                        lemma_clean_prefix(&table, i as int, j as int);
                        assert(cell_err(&table, i as int, j as int) == Some(Error::UnknownId(t)));
                    }
                    return Err(Error::UnknownId(t));
                }
                if t == i {
                    proof {
                        if table_wf(&table) {
                            assert(row(&table, i as int)[j as int] != i as int);
                        }
                        assert(row(&table, i as int).contains(i as usize));
                        lemma_clean_prefix(&table, i as int, j as int);
                        assert(cell_err(&table, i as int, j as int) == Some(
                            Error::DuplicateEdge(i, i),
                        ));
                    }
                    return Err(Error::DuplicateEdge(i, i));
                }
                if vec_contains_from(&table[i], j + 1, t) {
                    proof {
                        let j3 = choose|j3: int|
                            j + 1 <= j3 < row(&table, i as int).len() && row(&table, i as int)[j3]
                                == t;
                        if table_wf(&table) {
                            assert(row(&table, i as int).no_duplicates());
                            assert(row(&table, i as int)[j as int] != row(&table, i as int)[j3]);
                        }
                        assert(row(&table, i as int)[j as int] == t && row(&table, i as int)[j3]
                            == t);
                        lemma_clean_prefix(&table, i as int, j as int);
                        assert(cell_err(&table, i as int, j as int) == Some(
                            Error::DuplicateEdge(i, t),
                        ));
                    }
                    return Err(Error::DuplicateEdge(i, t));
                }
                if !vec_contains(&table[t], i) {
                    proof {
                        if table_wf(&table) {
                            assert(row(&table, (row(&table, i as int)[j as int]) as int).contains(
                                i as usize,
                            ));
                        }
                        assert(row(&table, i as int).contains(t));
                        lemma_clean_prefix(&table, i as int, j as int);
                        assert(cell_err(&table, i as int, j as int) == Some(
                            Error::MissingEdge(t, i),
                        ));
                    }
                    return Err(Error::MissingEdge(t, i));
                }
                if i < t {
                    proof {
                        assert forall|k: int| 0 <= k < edges@.len() implies edges@[k] != (
                        i,
                        t,
                        ) by {
                            let e = edges@[k];
                            if e.0 == i {
                                let jj = choose|jj: int|
                                    0 <= jj < j && row(&table, i as int)[jj] == e.1;
                                if e.1 == t {
                                    assert(row(&table, i as int)[jj] == row(
                                        &table,
                                        i as int,
                                    )[j as int]);
                                }
                            }
                        }
                    }
                    edges.push((i, t));
                }
                j += 1;
            }
            i += 1;
        }
        let mut indices: std::collections::HashMap<usize, usize> =
            std::collections::HashMap::new();
        let mut ids: Vec<usize> = Vec::new();
        let mut k: usize = 0;
        while k < n
            invariant
                0 <= k <= n,
                ids@.len() == k,
                forall|p: int| 0 <= p < k ==> ids@[p] == p,
                forall|key: usize| #[trigger]
                    indices@.contains_key(key) ==> key < k && indices@[key] == key,
                forall|p: usize| p < k ==> indices@.contains_key(p),
            decreases n - k,
        {
            indices.insert(k, k);
            ids.push(k);
            k += 1;
        }
        let g = HashMapGraph { indices, adjacency: table, ids, edges };
        proof {
            let nn = n as int;
            assert(g.adjacency@ == table@);
            assert forall|i2: int, j2: int|
                0 <= i2 < nn && 0 <= j2 < row(&g.adjacency, i2).len() implies (#[trigger] row(
                &g.adjacency,
                i2,
            )[j2]) < nn && row(&g.adjacency, i2)[j2] != i2 && !(exists|j3: int|
                j2 < j3 < row(&g.adjacency, i2).len() && row(&g.adjacency, i2)[j3] == row(
                    &g.adjacency,
                    i2,
                )[j2]) && row(&g.adjacency, (row(&g.adjacency, i2)[j2]) as int).contains(
                i2 as usize,
            ) by {
                assert(row(&table, i2) == row(&g.adjacency, i2));
                assert(row(&table, i2)[j2] == row(&g.adjacency, i2)[j2]);
                assert(row(&table, (row(&table, i2)[j2]) as int) == row(
                    &g.adjacency,
                    (row(&g.adjacency, i2)[j2]) as int,
                ));
            }
            assert forall|s: int, jj: int|
                0 <= s < nn && 0 <= jj < row(&g.adjacency, s).len() && s < row(&g.adjacency, s)[jj]
                    implies g.edges@.contains(
                (s as usize, #[trigger] row(&g.adjacency, s)[jj]),
            ) by {
                assert(row(&table, s)[jj] == row(&g.adjacency, s)[jj]);
            }
            assert forall|k2: int| 0 <= k2 < g.edges@.len() implies {
                let e = #[trigger] g.edges@[k2];
                e.0 < e.1 && e.1 < nn && row(&g.adjacency, e.0 as int).contains(e.1)
            } by {
                let e = g.edges@[k2];
                assert(row(&table, e.0 as int) == row(&g.adjacency, e.0 as int));
            }
            assert(table_wf(&g.adjacency)) by {
                assert forall|i2: int| 0 <= i2 < nn implies (#[trigger] row(
                    &g.adjacency,
                    i2,
                )).no_duplicates() by {
                    assert forall|p: int, q: int|
                        0 <= p < q < row(&g.adjacency, i2).len() implies row(&g.adjacency, i2)[p]
                        != row(&g.adjacency, i2)[q] by {
                        assert(!(exists|j3: int|
                            p < j3 < row(&g.adjacency, i2).len() && row(&g.adjacency, i2)[j3]
                                == row(&g.adjacency, i2)[p]));
                    }
                }
            }
            assert(g.ids@.no_duplicates()) by {
                assert forall|p: int, q: int| 0 <= p < q < g.ids@.len() implies g.ids@[p]
                    != g.ids@[q] by {
                    assert(g.ids@[p] == p && g.ids@[q] == q);
                }
            }
            assert forall|i2: int, j2: int|
                0 <= i2 < nn && 0 <= j2 < g.adj_at(i2).len() implies g.edges@.contains(
                (g.ids@[i2], #[trigger] g.adj_at(i2)[j2]),
            ) || g.edges@.contains((g.adj_at(i2)[j2], g.ids@[i2])) by {
                let t = g.adj_at(i2)[j2];
                assert(row(&g.adjacency, i2) == g.adj_at(i2));
                assert(row(&g.adjacency, i2)[j2] == t);
                if i2 < t {
                    assert(g.edges@.contains((i2 as usize, t)));
                } else {
                    assert(row(&g.adjacency, t as int).contains(i2 as usize));
                    let jj = choose|jj: int|
                        0 <= jj < row(&g.adjacency, t as int).len() && row(&g.adjacency, t as int)[jj]
                            == i2 as usize;
                    assert(g.edges@.contains((t, i2 as usize)));
                }
            }
            assert forall|k2: int| 0 <= k2 < g.edges@.len() implies {
                let e = #[trigger] g.edges@[k2];
                &&& g.idx().contains_key(e.0)
                &&& g.idx().contains_key(e.1)
                &&& e.0 != e.1
                &&& g.adj_at(g.idx()[e.0] as int).contains(e.1)
                &&& g.adj_at(g.idx()[e.1] as int).contains(e.0)
            } by {
                let e = g.edges@[k2];
                assert(row(&g.adjacency, e.0 as int).contains(e.1));
                let jj = choose|jj: int|
                    0 <= jj < row(&g.adjacency, e.0 as int).len() && row(&g.adjacency, e.0 as int)[jj]
                        == e.1;
                assert(row(&g.adjacency, (row(&g.adjacency, e.0 as int)[jj]) as int).contains(
                    e.0,
                ));
                assert(e.0 < n && e.1 < n);
                assert(g.idx().contains_key(e.0));
                assert(g.idx().contains_key(e.1));
                assert(g.idx()[e.0] == e.0 && g.idx()[e.1] == e.1);
            }
            assert forall|p: int, q: int| 0 <= p < q < g.edges@.len() implies #[trigger] g.edges@[p]
                != #[trigger] g.edges@[q] && g.edges@[p] != (g.edges@[q].1, g.edges@[q].0) by {
                assert(g.edges@[p].0 < g.edges@[p].1 && g.edges@[q].0 < g.edges@[q].1);
            }
            assert(g.wf());
            assert(g.id_seq() =~= Seq::new(g.adjacency@.len(), |i: int| i as usize));
            assert forall|i2: int| 0 <= i2 < nn implies #[trigger] g.adj_seq(i2 as usize) == row(
                &g.adjacency,
                i2,
            ) by {
                assert(g.idx().contains_key(i2 as usize));
                assert(g.idx()[i2 as usize] == i2 as usize);
            }
            assert forall|s: usize, t: usize| s < t && t < nn implies (
            #[trigger] g.edge_seq().contains((s, t)) <==> row(&table, s as int).contains(t)) by {
                if g.edge_seq().contains((s, t)) {
                    let k2 = choose|k2: int| 0 <= k2 < g.edges@.len() && g.edges@[k2] == (s, t);
                    assert(row(&table, s as int).contains(t));
                }
                if row(&table, s as int).contains(t) {
                    let jj = choose|jj: int|
                        0 <= jj < row(&table, s as int).len() && row(&table, s as int)[jj] == t;
                    assert(g.edges@.contains((s as usize, row(&table, s as int)[jj])));
                }
            }
        }
        Ok(g)
    }

    /// Build a store from the steps of a depth-first traversal: the root
    /// is added first (also when the traversal yields no steps), every
    /// freshly discovered target is added, and every reported edge — cut
    /// edges included — is inserted. The result is the subgraph the
    /// traversal actually visited: all its vertices are vertices of the
    /// traversed graph, the root comes first, and a traversal with no
    /// pending edges gives the one-vertex graph of its root.
    /// Build a store from the steps of a depth-first traversal: the root
    /// is added first (also when the traversal yields no steps), every
    /// freshly discovered target is added, and every reported edge — cut
    /// edges included — is inserted. The construction succeeds exactly
    /// when replaying the traversal's full step sequence succeeds, and
    /// the result then holds the root plus the freshly discovered targets
    /// in step order as its ids, and the reported pairs in step order as
    /// its edges; every vertex comes from the traversed graph.
    pub fn from_traversal<'t, G: Graph>(traversal: crate::depth_first::DepthFirst<'t, G>) -> (r:
        Result<Self, Error>)
        requires
            traversal.wf(),
        ensures
            ({
                let run = dfs_run(traversal.g(), traversal.visited(), traversal.pending());
                &&& (r is Ok <==> replay_ok(traversal.root(), run))
                &&& match r {
                    Ok(g) => {
                        &&& g.wf()
                        &&& g.id_seq() == replay_ids(traversal.root(), run)
                        &&& g.edge_seq() == step_pairs(run)
                        &&& forall|id: usize|
                            g.id_seq().contains(id) ==> traversal.g().id_seq().contains(id)
                    },
                    Err(e) => e is UnknownId || e is DuplicateEdge,
                }
            }),
    {
        let mut t = traversal;
        let mut result = HashMapGraph::new();
        let a = result.add_node(t.root_id());
        proof {
            assert(a is Ok);
            assert(result.id_seq() =~= seq![traversal.root()]);
            assert(result.id_seq() =~= replay_ids(traversal.root(), Seq::<Step>::empty()));
            assert(result.edge_seq() =~= step_pairs(Seq::<Step>::empty()));
        }
        let mut go = true;
        let ghost mut steps: Seq<Step> = Seq::empty();
        while go
            invariant
                t.wf(),
                t.g() == traversal.g(),
                t.root() == traversal.root(),
                result.wf(),
                forall|id: usize| result.id_seq().contains(id) ==> t.visited().contains(id),
                forall|v: usize| t.visited().contains(v) ==> t.g().id_seq().contains(v),
                dfs_run(traversal.g(), traversal.visited(), traversal.pending()) == steps
                    + dfs_run(t.g(), t.visited(), t.pending()),
                replay_ok(traversal.root(), steps),
                result.id_seq() == replay_ids(traversal.root(), steps),
                result.edge_seq() == step_pairs(steps),
                !go ==> t.pending().len() == 0,
            decreases 2 * t.measure() + (if go {
                1int
            } else {
                0int
            }),
        {
            let ghost told = t;
            match t.next() {
                None => {
                    go = false;
                },
                Some(step) => {
                    proof {
                        assert(told.visited().contains(
                            told.pending()[told.pending().len() - 1].0,
                        ));
                        assert(told.g().id_seq().contains(
                            told.pending()[told.pending().len() - 1].1,
                        ));
                        assert(run_wf(told.g(), told.visited(), told.pending())) by {
                            assert forall|k2: int|
                                0 <= k2 < told.pending().len() implies told.g().id_seq().contains(
                                (#[trigger] told.pending()[k2]).1,
                            ) by {
                                assert(told.visited().contains(told.pending()[k2].0));
                            }
                        }
                        lemma_dfs_run_step(told.g(), told.visited(), told.pending());
                        assert(dfs_run(told.g(), told.visited(), told.pending()) == seq![step]
                            + dfs_run(t.g(), t.visited(), t.pending()));
                    }
                    let ghost steps0 = steps;
                    proof {
                        steps = steps.push(step);
                        assert(steps0 + (seq![step] + dfs_run(t.g(), t.visited(), t.pending()))
                            =~= steps + dfs_run(t.g(), t.visited(), t.pending()));
                        assert(steps.drop_last() =~= steps0);
                        assert(steps.last() == step);
                        assert(step_pairs(steps) =~= step_pairs(steps0).push(
                            (step.sid, step.tid),
                        ));
                        assert(noncut_tids(steps) == if step.cut {
                            noncut_tids(steps0)
                        } else {
                            noncut_tids(steps0).push(step.tid)
                        });
                    }
                    if !step.cut {
                        let a = result.add_node(step.tid);
                        proof {
                            assert(!told.visited().contains(step.tid));
                            assert(a is Ok);
                            assert(result.id_seq().last() == step.tid);
                            assert(result.id_seq() =~= replay_ids(traversal.root(), steps));
                        }
                    } else {
                        proof {
                            assert(replay_ids(traversal.root(), steps) == replay_ids(
                                traversal.root(),
                                steps0,
                            ));
                        }
                    }
                    let ghost g2 = result;
                    match result.add_edge(step.sid, step.tid) {
                        Ok(()) => {
                            proof {
                                assert(result.edge_seq() =~= step_pairs(steps));
                                assert(replay_ok(traversal.root(), steps)) by {
                                    assert(replay_ids(traversal.root(), steps).contains(
                                        step.sid,
                                    ));
                                    assert(replay_ids(traversal.root(), steps).contains(
                                        step.tid,
                                    ));
                                    assert forall|j: int|
                                        0 <= j < steps0.len() implies ((#[trigger] steps0[j]).sid,
                                    steps0[j].tid) != (step.sid, step.tid) && (
                                    steps0[j].sid,
                                    steps0[j].tid,
                                    ) != (step.tid, step.sid) by {
                                        assert(g2.edge_seq()[j] == (steps0[j].sid, steps0[j].tid));
                                        if (steps0[j].sid, steps0[j].tid) == (
                                            step.sid,
                                            step.tid,
                                        ) {
                                            assert(g2.edge_seq().contains((step.sid, step.tid)));
                                            lemma_edge_endpoints(g2, step.sid, step.tid);
                                            assert(false);
                                        }
                                        if (steps0[j].sid, steps0[j].tid) == (
                                            step.tid,
                                            step.sid,
                                        ) {
                                            assert(g2.edge_seq().contains((step.tid, step.sid)));
                                            lemma_edge_endpoints(g2, step.tid, step.sid);
                                            assert(false);
                                        }
                                    }
                                }
                            }
                        },
                        Err(e) => {
                            proof {
                                assert(!replay_ok(traversal.root(), steps)) by {
                                    if replay_ok(traversal.root(), steps) {
                                        assert(replay_ids(traversal.root(), steps).contains(
                                            step.sid,
                                        ));
                                        assert(replay_ids(traversal.root(), steps).contains(
                                            step.tid,
                                        ));
                                        assert(g2.id_seq().contains(step.sid));
                                        assert(g2.id_seq().contains(step.tid));
                                        assert(step.sid != step.tid && g2.adj_seq(
                                            step.sid,
                                        ).contains(step.tid));
                                        lemma_adj_to_edge(g2, step.sid, step.tid);
                                        if g2.edge_seq().contains((step.sid, step.tid)) {
                                            let j = choose|j: int|
                                                0 <= j < g2.edge_seq().len() && g2.edge_seq()[j]
                                                    == (step.sid, step.tid);
                                            assert(g2.edge_seq()[j] == (
                                                steps0[j].sid,
                                                steps0[j].tid,
                                            ));
                                            assert(false);
                                        } else {
                                            let j = choose|j: int|
                                                0 <= j < g2.edge_seq().len() && g2.edge_seq()[j]
                                                    == (step.tid, step.sid);
                                            assert(g2.edge_seq()[j] == (
                                                steps0[j].sid,
                                                steps0[j].tid,
                                            ));
                                            assert(false);
                                        }
                                    }
                                }
                                let full = dfs_run(
                                    traversal.g(),
                                    traversal.visited(),
                                    traversal.pending(),
                                );
                                assert(steps =~= full.take(steps.len() as int)) by {
                                    assert(full == steps + dfs_run(
                                        t.g(),
                                        t.visited(),
                                        t.pending(),
                                    ));
                                }
                                if replay_ok(traversal.root(), full) {
                                    lemma_replay_ok_prefix(
                                        traversal.root(),
                                        full,
                                        steps.len() as int,
                                    );
                                    assert(false);
                                }
                            }
                            return Err(e);
                        },
                    }
                },
            }
        }
        proof {
            assert(run_wf(t.g(), t.visited(), t.pending())) by {
                assert forall|k2: int|
                    0 <= k2 < t.pending().len() implies t.g().id_seq().contains(
                    (#[trigger] t.pending()[k2]).1,
                ) by {
                    assert(t.visited().contains(t.pending()[k2].0));
                }
            }
            lemma_dfs_run_step(t.g(), t.visited(), t.pending());
            assert(dfs_run(t.g(), t.visited(), t.pending()) == Seq::<Step>::empty());
            assert(steps + Seq::<Step>::empty() =~= steps);
        }
        Ok(result)
    }

    /// Structural graph equality, independent of insertion order and of
    /// internal indices: same order, same size, every id of `self` present
    /// in `other`, and every edge of `self` present in `other` in either
    /// direction.
    pub open spec fn eq_spec(&self, other: &Self) -> bool {
        &&& self.edge_seq().len() == other.edge_seq().len()
        &&& self.id_seq().len() == other.id_seq().len()
        &&& forall|i: int|
            0 <= i < self.id_seq().len() ==> other.id_seq().contains(#[trigger] self.id_seq()[i])
        &&& forall|k: int|
            0 <= k < self.edge_seq().len() ==> {
                let e = #[trigger] self.edge_seq()[k];
                other.id_seq().contains(e.0) && other.id_seq().contains(e.1) && other.adj_seq(
                    e.0,
                ).contains(e.1)
            }
    }

    /// Decide structural equality with `other`.
    pub fn graph_eq(&self, other: &Self) -> (r: bool)
        requires
            self.wf(),
            other.wf(),
        ensures
            r == self.eq_spec(other),
    {
        if self.size() != other.size() {
            return false;
        }
        if self.order() != other.order() {
            return false;
        }
        let ids = self.ids();
        let mut i: usize = 0;
        while i < ids.len()
            invariant
                0 <= i <= ids@.len(),
                ids@ == self.id_seq(),
                self.wf(),
                other.wf(),
                forall|j: int| 0 <= j < i ==> other.id_seq().contains(#[trigger] ids@[j]),
            decreases ids@.len() - i,
        {
            if !other.has_id(ids[i]) {
                return false;
            }
            i += 1;
        }
        let es = self.edges();
        let mut k: usize = 0;
        while k < es.len()
            invariant
                0 <= k <= es@.len(),
                es@ == self.edge_seq(),
                self.wf(),
                other.wf(),
                forall|j: int|
                    0 <= j < k ==> {
                        let e = #[trigger] es@[j];
                        other.id_seq().contains(e.0) && other.id_seq().contains(e.1)
                            && other.adj_seq(e.0).contains(e.1)
                    },
            decreases es@.len() - k,
        {
            let (s, t) = es[k];
            match other.has_edge(s, t) {
                Ok(b) => {
                    if !b {
                        return false;
                    }
                },
                Err(_) => {
                    return false;
                },
            }
            k += 1;
        }
        true
    }
}

/// In a well-formed store every adjacency entry is backed by a recorded
/// edge: `tid` in `sid`'s list means `(sid, tid)` or `(tid, sid)` stands in
/// the edge sequence.
pub proof fn lemma_adj_to_edge(g: HashMapGraph, sid: usize, tid: usize)
    requires
        g.wf(),
        g.id_seq().contains(sid),
        g.adj_seq(sid).contains(tid),
    ensures
        g.edge_seq().contains((sid, tid)) || g.edge_seq().contains((tid, sid)),
{
    lemma_id_key(g, sid);
    let i = g.idx()[sid] as int;
    assert(g.ids@[i] == sid);
    let j = choose|j: int| 0 <= j < g.adj_at(i).len() && g.adj_at(i)[j] == tid;
    assert(g.edges@.contains((g.ids@[i], g.adj_at(i)[j])) || g.edges@.contains(
        (g.adj_at(i)[j], g.ids@[i]),
    ));
}

/// The vertex ids replaying a step sequence inserts: the root, then each
/// freshly discovered target in step order.
pub open spec fn replay_ids(root: usize, steps: Seq<Step>) -> Seq<usize> {
    seq![root] + noncut_tids(steps)
}

/// Whether replaying a step sequence into a fresh store succeeds: each
/// fresh target is genuinely new, and each reported edge joins two
/// present, distinct vertices and repeats no earlier unordered pair.
pub open spec fn replay_ok(root: usize, steps: Seq<Step>) -> bool
    decreases steps.len(),
{
    if steps.len() == 0 {
        true
    } else {
        let s = steps.last();
        let pre = steps.drop_last();
        &&& replay_ok(root, pre)
        &&& (s.cut || !replay_ids(root, pre).contains(s.tid))
        &&& replay_ids(root, steps).contains(s.sid)
        &&& replay_ids(root, steps).contains(s.tid)
        &&& s.sid != s.tid
        &&& forall|j: int|
            0 <= j < pre.len() ==> ((#[trigger] pre[j]).sid, pre[j].tid) != (s.sid, s.tid) && (
            pre[j].sid,
            pre[j].tid,
            ) != (s.tid, s.sid)
    }
}

/// A replay that succeeds as a whole succeeds on every prefix.
pub proof fn lemma_replay_ok_prefix(root: usize, steps: Seq<Step>, k: int)
    requires
        0 <= k <= steps.len(),
        replay_ok(root, steps),
    ensures
        replay_ok(root, steps.take(k)),
    decreases steps.len() - k,
{
    if k < steps.len() {
        assert(replay_ok(root, steps.drop_last()));
        assert(steps.take(k) =~= steps.drop_last().take(k));
        lemma_replay_ok_prefix(root, steps.drop_last(), k);
    } else {
        assert(steps.take(k) =~= steps);
    }
}

/// The edge sequence of a well-formed store never records an unordered
/// pair twice, in either orientation.
pub proof fn lemma_edge_pairs_distinct(g: HashMapGraph, p: int, q: int)
    requires
        g.wf(),
        0 <= p < q < g.edge_seq().len(),
    ensures
        g.edge_seq()[p] != g.edge_seq()[q],
        g.edge_seq()[p] != (g.edge_seq()[q].1, g.edge_seq()[q].0),
{
}

/// In a well-formed store an id is a key of the index map exactly when it
/// stands in the id sequence.
pub proof fn lemma_id_key(g: HashMapGraph, id: usize)
    requires
        g.wf(),
    ensures
        g.idx().contains_key(id) <==> g.id_seq().contains(id),
{
    if g.idx().contains_key(id) {
        assert(g.ids@[g.idx()[id] as int] == id);
        assert(g.id_seq().contains(id));
    }
    if g.id_seq().contains(id) {
        let i = choose|i: int| 0 <= i < g.ids@.len() && g.ids@[i] == id;
        assert(g.idx().contains_key(id));
    }
}

impl Graph for HashMapGraph {
    closed spec fn id_seq(&self) -> Seq<usize> {
        self.ids@
    }

    closed spec fn adj_seq(&self, id: usize) -> Seq<usize> {
        self.adj_at(self.idx()[id] as int)
    }

    closed spec fn edge_seq(&self) -> Seq<(usize, usize)> {
        self.edges@
    }

    open spec fn valid(&self) -> bool {
        self.wf()
    }

    proof fn valid_facts(&self) {
        assert forall|i: int| 0 <= i < self.id_seq().len() implies (#[trigger] self.adj_seq(
            self.id_seq()[i],
        )) == self.adj_at(i) by {
            assert(self.idx().contains_key(self.ids@[i]));
        }
        assert forall|k: int| 0 <= k < self.edge_seq().len() implies {
            let e = #[trigger] self.edge_seq()[k];
            self.id_seq().contains(e.0) && self.id_seq().contains(e.1) && e.0 != e.1
                && self.adj_seq(e.0).contains(e.1) && self.adj_seq(e.1).contains(e.0)
        } by {
            let e = self.edges@[k];
            lemma_id_key(*self, e.0);
            lemma_id_key(*self, e.1);
        }
    }

    fn is_empty(&self) -> (r: bool) {
        self.ids.len() == 0
    }

    fn order(&self) -> (r: usize) {
        self.ids.len()
    }

    fn size(&self) -> (r: usize) {
        self.edges.len()
    }

    fn ids(&self) -> (r: Vec<usize>) {
        let mut out: Vec<usize> = Vec::new();
        let mut i: usize = 0;
        while i < self.ids.len()
            invariant
                0 <= i <= self.ids@.len(),
                out@ == self.ids@.take(i as int),
            decreases self.ids@.len() - i,
        {
            out.push(self.ids[i]);
            proof {
                assert(out@ == self.ids@.take(i + 1 as int));
            }
            i += 1;
        }
        proof {
            assert(self.ids@.take(self.ids@.len() as int) == self.ids@);
        }
        out
    }

    fn has_id(&self, id: usize) -> (r: bool) {
        proof {
            lemma_id_key(*self, id);
        }
        self.indices.contains_key(&id)
    }

    fn neighbors(&self, id: usize) -> (r: Result<Vec<usize>, Error>) {
        let index = match self.index_for(id) {
            Ok(i) => i,
            Err(e) => {
                return Err(e);
            },
        };
        let row = &self.adjacency[index];
        let mut out: Vec<usize> = Vec::new();
        let mut i: usize = 0;
        while i < row.len()
            invariant
                0 <= i <= row@.len(),
                out@ == row@.take(i as int),
            decreases row@.len() - i,
        {
            out.push(row[i]);
            proof {
                assert(out@ == row@.take(i + 1 as int));
            }
            i += 1;
        }
        proof {
            assert(row@.take(row@.len() as int) == row@);
        }
        Ok(out)
    }

    fn degree(&self, id: usize) -> (r: Result<usize, Error>) {
        let index = match self.index_for(id) {
            Ok(i) => i,
            Err(e) => {
                return Err(e);
            },
        };
        Ok(self.adjacency[index].len())
    }

    fn edges(&self) -> (r: Vec<(usize, usize)>) {
        let mut out: Vec<(usize, usize)> = Vec::new();
        let mut i: usize = 0;
        while i < self.edges.len()
            invariant
                0 <= i <= self.edges@.len(),
                out@ == self.edges@.take(i as int),
            decreases self.edges@.len() - i,
        {
            out.push(self.edges[i]);
            proof {
                assert(out@ == self.edges@.take(i + 1 as int));
            }
            i += 1;
        }
        proof {
            assert(self.edges@.take(self.edges@.len() as int) == self.edges@);
        }
        out
    }

    fn has_edge(&self, sid: usize, tid: usize) -> (r: Result<bool, Error>) {
        let index = match self.index_for(sid) {
            Ok(i) => i,
            Err(e) => {
                return Err(e);
            },
        };
        proof {
            lemma_id_key(*self, tid);
        }
        if self.indices.contains_key(&tid) {
            Ok(vec_contains(&self.adjacency[index], tid))
        } else {
            Err(Error::UnknownId(tid))
        }
    }
}

/// Every recorded undirected edge is owned by both endpoints: each
/// endpoint is a vertex of the store, the edge is no self-loop, and each
/// endpoint's neighbor list — whose length is the vertex's degree, and
/// which never repeats an entry — mentions the other, so the degree of
/// each endpoint counts the edge exactly once.
pub proof fn lemma_edge_endpoints(g: HashMapGraph, s: usize, t: usize)
    requires
        g.wf(),
        g.edge_seq().contains((s, t)),
    ensures
        g.id_seq().contains(s),
        g.id_seq().contains(t),
        s != t,
        g.adj_seq(s).contains(t),
        g.adj_seq(t).contains(s),
        g.adj_seq(s).no_duplicates(),
        g.adj_seq(t).no_duplicates(),
{
    let k = choose|k: int| 0 <= k < g.edges@.len() && g.edges@[k] == (s, t);
    lemma_id_key(g, s);
    lemma_id_key(g, t);
    assert(g.adj_at(g.idx()[s] as int).no_duplicates());
    assert(g.adj_at(g.idx()[t] as int).no_duplicates());
}

/// In a well-formed store, an undirected edge looks the same from both
/// sides: `tid` stands in `sid`'s list exactly when `sid` stands in
/// `tid`'s.
pub proof fn lemma_wf_symmetry(g: HashMapGraph, sid: usize, tid: usize)
    requires
        g.wf(),
        g.id_seq().contains(sid),
        g.id_seq().contains(tid),
    ensures
        g.adj_seq(sid).contains(tid) <==> g.adj_seq(tid).contains(sid),
{
    let si = g.idx()[sid] as int;
    let ti = g.idx()[tid] as int;
    assert(g.idx().contains_key(sid) && g.idx().contains_key(tid)) by {
        let i = choose|i: int| 0 <= i < g.ids@.len() && g.ids@[i] == sid;
        let j = choose|j: int| 0 <= j < g.ids@.len() && g.ids@[j] == tid;
    }
    if g.adj_seq(sid).contains(tid) {
        let j = choose|j: int| 0 <= j < g.adj_at(si).len() && g.adj_at(si)[j] == tid;
        assert(g.edges@.contains((sid, tid)) || g.edges@.contains((tid, sid)));
        if g.edges@.contains((sid, tid)) {
            let k = choose|k: int| 0 <= k < g.edges@.len() && g.edges@[k] == (sid, tid);
            assert(g.adj_at(ti).contains(sid));
        } else {
            let k = choose|k: int| 0 <= k < g.edges@.len() && g.edges@[k] == (tid, sid);
            assert(g.adj_at(ti).contains(sid));
        }
    }
    if g.adj_seq(tid).contains(sid) {
        let j = choose|j: int| 0 <= j < g.adj_at(ti).len() && g.adj_at(ti)[j] == sid;
        assert(g.edges@.contains((tid, sid)) || g.edges@.contains((sid, tid)));
        if g.edges@.contains((tid, sid)) {
            let k = choose|k: int| 0 <= k < g.edges@.len() && g.edges@[k] == (tid, sid);
            assert(g.adj_at(si).contains(tid));
        } else {
            let k = choose|k: int| 0 <= k < g.edges@.len() && g.edges@[k] == (sid, tid);
            assert(g.adj_at(si).contains(tid));
        }
    }
}

/// Appending one fresh vertex to a well-formed store keeps it well-formed.
proof fn lemma_add_node_wf(g0: HashMapGraph, g1: HashMapGraph, id: usize, n: usize)
    requires
        g0.wf(),
        !g0.idx().contains_key(id),
        n == g0.ids@.len(),
        g1.idx() == g0.idx().insert(id, n),
        g1.ids@ == g0.ids@.push(id),
        g1.adjacency@.len() == g0.adjacency@.len() + 1,
        forall|i: int| 0 <= i < g0.adjacency@.len() ==> g1.adjacency@[i] == g0.adjacency@[i],
        g1.adj_at(g0.adjacency@.len() as int) == Seq::<usize>::empty(),
        g1.edges@ == g0.edges@,
    ensures
        g1.wf(),
{
    let n = n as int;
    assert forall|i: int| 0 <= i < n implies g0.ids@[i] != id by {
        assert(g0.idx().contains_key(g0.ids@[i]));
    }
    assert(g1.ids@.no_duplicates()) by {
        assert forall|i: int, j: int| 0 <= i < j < g1.ids@.len() implies g1.ids@[i]
            != g1.ids@[j] by {
            if j < n {
                assert(g0.ids@[i] != g0.ids@[j]);
            } else {
                assert(g1.ids@[j] == id && g1.ids@[i] == g0.ids@[i]);
            }
        }
    }
    assert forall|i: int| 0 <= i < n implies g1.adj_at(i) == g0.adj_at(i) by {
        assert(g1.adjacency@[i] == g0.adjacency@[i]);
    }
    assert forall|k: usize| #[trigger]
        g1.idx().contains_key(k) implies g1.idx()[k] < g1.ids@.len() && g1.ids@[g1.idx()[k] as int]
        == k by {
        if k != id {
            assert(g0.idx().contains_key(k));
        } else {
            assert(g1.idx()[id] == n);
            assert(g1.ids@[n as int] == id);
        }
    }
    assert forall|k: int| 0 <= k < g1.edges@.len() implies {
        let e = #[trigger] g1.edges@[k];
        &&& g1.idx().contains_key(e.0)
        &&& g1.idx().contains_key(e.1)
        &&& e.0 != e.1
        &&& g1.adj_at(g1.idx()[e.0] as int).contains(e.1)
        &&& g1.adj_at(g1.idx()[e.1] as int).contains(e.0)
    } by {
        let e = g1.edges@[k];
        assert(e == g0.edges@[k]);
        assert(g0.idx().contains_key(e.0) && g0.idx().contains_key(e.1));
        assert(e.0 != id && e.1 != id);
        assert(g1.idx()[e.0] == g0.idx()[e.0] && g1.idx()[e.1] == g0.idx()[e.1]);
    }
    assert(g1.wf());
}

/// Pushing one fresh undirected edge onto a well-formed store keeps it
/// well-formed.
proof fn lemma_add_edge_wf(g0: HashMapGraph, g1: HashMapGraph, sid: usize, tid: usize)
    requires
        g0.wf(),
        g0.idx().contains_key(sid),
        g0.idx().contains_key(tid),
        sid != tid,
        !g0.adj_at(g0.idx()[sid] as int).contains(tid),
        !g0.adj_at(g0.idx()[tid] as int).contains(sid),
        g1.idx() == g0.idx(),
        g1.ids@ == g0.ids@,
        g1.edges@ == g0.edges@.push((sid, tid)),
        g1.adjacency@ == g0.adjacency@.update(
            g0.idx()[sid] as int,
            g1.adjacency@[g0.idx()[sid] as int],
        ).update(g0.idx()[tid] as int, g1.adjacency@[g0.idx()[tid] as int]),
        g1.adj_at(g0.idx()[sid] as int) == g0.adj_at(g0.idx()[sid] as int).push(tid),
        g1.adj_at(g0.idx()[tid] as int) == g0.adj_at(g0.idx()[tid] as int).push(sid),
    ensures
        g1.wf(),
{
    let si = g0.idx()[sid] as int;
    let ti = g0.idx()[tid] as int;
    let n = g0.ids@.len() as int;
    assert(g0.ids@[si] == sid && g0.ids@[ti] == tid);
    assert forall|i: int| 0 <= i < n && i != si && i != ti implies g1.adj_at(i) == g0.adj_at(
        i,
    ) by {}
    assert forall|i: int| 0 <= i < n implies (#[trigger] g1.adj_at(i)).no_duplicates() by {
        if i == si {
            assert(g0.adj_at(si).no_duplicates());
            assert(!g0.adj_at(si).contains(tid));
        } else if i == ti {
            assert(g0.adj_at(ti).no_duplicates());
            assert(!g0.adj_at(ti).contains(sid));
        }
    }
    assert forall|i: int, j: int| 0 <= i < n && 0 <= j < g1.adj_at(i).len() implies #[trigger] g1.adj_at(
        i,
    )[j] != g1.ids@[i] && g1.idx().contains_key(g1.adj_at(i)[j]) by {
        if i == si && j == g1.adj_at(i).len() - 1 {
            assert(g1.adj_at(i)[j] == tid);
        } else if i == ti && j == g1.adj_at(i).len() - 1 {
            assert(g1.adj_at(i)[j] == sid);
        } else {
            assert(g1.adj_at(i)[j] == g0.adj_at(i)[j]);
        }
    }
    assert forall|i: int, j: int| 0 <= i < n && 0 <= j < g1.adj_at(i).len() implies g1.edges@.contains(
        (g1.ids@[i], #[trigger] g1.adj_at(i)[j]),
    ) || g1.edges@.contains((g1.adj_at(i)[j], g1.ids@[i])) by {
        if i == si && j == g1.adj_at(i).len() - 1 {
            assert(g1.edges@[g1.edges@.len() - 1] == (sid, tid));
            assert(g1.edges@.contains((sid, tid)));
        } else if i == ti && j == g1.adj_at(i).len() - 1 {
            assert(g1.edges@[g1.edges@.len() - 1] == (sid, tid));
            assert(g1.edges@.contains((sid, tid)));
        } else {
            assert(g1.adj_at(i)[j] == g0.adj_at(i)[j]);
            assert(g0.edges@.contains((g0.ids@[i], g0.adj_at(i)[j])) || g0.edges@.contains(
                (g0.adj_at(i)[j], g0.ids@[i]),
            ));
            assert forall|e: (usize, usize)| g0.edges@.contains(e) implies g1.edges@.contains(
                e,
            ) by {
                let k = choose|k: int| 0 <= k < g0.edges@.len() && g0.edges@[k] == e;
                assert(g1.edges@[k] == e);
            }
        }
    }
    assert forall|k: int| 0 <= k < g1.edges@.len() implies {
        let e = #[trigger] g1.edges@[k];
        &&& g1.idx().contains_key(e.0)
        &&& g1.idx().contains_key(e.1)
        &&& e.0 != e.1
        &&& g1.adj_at(g1.idx()[e.0] as int).contains(e.1)
        &&& g1.adj_at(g1.idx()[e.1] as int).contains(e.0)
    } by {
        let e = g1.edges@[k];
        if k == g1.edges@.len() - 1 {
            assert(e == (sid, tid));
            assert(g1.adj_at(si)[g1.adj_at(si).len() - 1] == tid);
            assert(g1.adj_at(si).contains(tid));
            assert(g1.adj_at(ti)[g1.adj_at(ti).len() - 1] == sid);
            assert(g1.adj_at(ti).contains(sid));
        } else {
            assert(e == g0.edges@[k]);
            let i0 = g0.idx()[e.0] as int;
            let i1 = g0.idx()[e.1] as int;
            assert(g0.adj_at(i0).contains(e.1));
            assert(g0.adj_at(i1).contains(e.0));
            assert forall|i: int| 0 <= i < n && g0.adj_at(i).contains(e.1) implies g1.adj_at(
                i,
            ).contains(e.1) by {
                let j = choose|j: int| 0 <= j < g0.adj_at(i).len() && g0.adj_at(i)[j] == e.1;
                assert(g1.adj_at(i)[j] == e.1);
            }
            assert forall|i: int| 0 <= i < n && g0.adj_at(i).contains(e.0) implies g1.adj_at(
                i,
            ).contains(e.0) by {
                let j = choose|j: int| 0 <= j < g0.adj_at(i).len() && g0.adj_at(i)[j] == e.0;
                assert(g1.adj_at(i)[j] == e.0);
            }
        }
    }
    assert forall|p: int, q: int| 0 <= p < q < g1.edges@.len() implies #[trigger] g1.edges@[p]
        != #[trigger] g1.edges@[q] && g1.edges@[p] != (g1.edges@[q].1, g1.edges@[q].0) by {
        if q == g1.edges@.len() - 1 {
            assert(g1.edges@[q] == (sid, tid));
            let ep = g0.edges@[p];
            assert(g1.edges@[p] == ep);
            if ep == (sid, tid) {
                assert(g0.adj_at(si).contains(tid));
                assert(false);
            }
            if ep == (tid, sid) {
                assert(g0.adj_at(ti).contains(sid));
                assert(false);
            }
        } else {
            assert(g1.edges@[p] == g0.edges@[p] && g1.edges@[q] == g0.edges@[q]);
        }
    }
}

} // verus!
