//! The common vocabulary of the toolkit: the error taxonomy, the traversal
//! step record, and the read-only graph capability that every algorithm is
//! written against.

use vstd::prelude::*;

verus! {

/// Everything that can go wrong while building or querying a graph.
#[derive(Debug, Clone, Copy, PartialEq, Eq, Structural)]
pub enum Error {
    /// A vertex id was inserted twice.
    DuplicateId(usize),
    /// A lookup or an edge referred to a vertex that is not in the store.
    UnknownId(usize),
    /// An undirected edge between the same unordered pair was inserted twice,
    /// or an edge was a self-loop (which this store rejects).
    DuplicateEdge(usize, usize),
    /// Bulk construction saw vertex `a` listed as a neighbor of `b`, while
    /// `a`'s own list does not mention `b`.
    MissingEdge(usize, usize),
}

/// One step of a traversal: the edge `(sid, tid)` was examined. `cut` is
/// false on the first visit of `tid` (a spanning-structure edge) and true
/// when `tid` had already been visited (the edge is reported, not expanded).
#[derive(Debug, Clone, Copy, PartialEq, Eq, Structural)]
pub struct Step {
    pub sid: usize,
    pub tid: usize,
    pub cut: bool,
}

impl Step {
    pub fn new(sid: usize, tid: usize, cut: bool) -> (r: Step)
        ensures
            r == (Step { sid, tid, cut }),
    {
        Step { sid, tid, cut }
    }
}

/// The read-only query surface every algorithm needs.
///
/// A graph is modelled by three spec-level views: the sequence of vertex
/// ids in enumeration order, the neighbor sequence of each id, and the
/// sequence of undirected edges, each stored once as an ordered pair.
pub trait Graph: Sized {
    /// The vertex ids in enumeration (insertion) order.
    spec fn id_seq(&self) -> Seq<usize>;

    /// The neighbors of `id` in insertion order (meaningful only when
    /// `id` is present).
    spec fn adj_seq(&self, id: usize) -> Seq<usize>;

    /// The undirected edges, each unordered pair recorded exactly once.
    spec fn edge_seq(&self) -> Seq<(usize, usize)>;

    /// The structural invariant a well-built graph satisfies.
    spec fn valid(&self) -> bool;

    /// What `valid` guarantees about the three views: unique ids, neighbor
    /// lists that mention only present ids with no duplicates and no
    /// self-loops, and a one-to-one correspondence between adjacency and
    /// the undirected edge sequence.
    proof fn valid_facts(&self)
        requires
            self.valid(),
        ensures
            self.id_seq().no_duplicates(),
            forall|i: int, j: int|
                0 <= i < self.id_seq().len() && 0 <= j < self.adj_seq(self.id_seq()[i]).len()
                    ==> #[trigger] self.adj_seq(self.id_seq()[i])[j] != self.id_seq()[i]
                    && self.id_seq().contains(self.adj_seq(self.id_seq()[i])[j]),
            forall|i: int|
                0 <= i < self.id_seq().len()
                    ==> (#[trigger] self.adj_seq(self.id_seq()[i])).no_duplicates(),
            forall|i: int, j: int|
                0 <= i < self.id_seq().len() && 0 <= j < self.adj_seq(self.id_seq()[i]).len()
                    ==> self.edge_seq().contains(
                        (self.id_seq()[i], #[trigger] self.adj_seq(self.id_seq()[i])[j]),
                    ) || self.edge_seq().contains(
                        (self.adj_seq(self.id_seq()[i])[j], self.id_seq()[i]),
                    ),
            forall|k: int|
                0 <= k < self.edge_seq().len() ==> {
                    let e = #[trigger] self.edge_seq()[k];
                    self.id_seq().contains(e.0) && self.id_seq().contains(e.1) && e.0 != e.1
                        && self.adj_seq(e.0).contains(e.1) && self.adj_seq(e.1).contains(e.0)
                },
    ;

    /// True when the graph holds no vertex.
    fn is_empty(&self) -> (r: bool)
        requires
            self.valid(),
        ensures
            r == (self.id_seq().len() == 0),
    ;

    /// The number of vertices.
    fn order(&self) -> (r: usize)
        requires
            self.valid(),
        ensures
            r == self.id_seq().len(),
    ;

    /// The number of undirected edges.
    fn size(&self) -> (r: usize)
        requires
            self.valid(),
        ensures
            r == self.edge_seq().len(),
    ;

    /// The vertex ids, one pass, in enumeration order.
    fn ids(&self) -> (r: Vec<usize>)
        requires
            self.valid(),
        ensures
            r@ == self.id_seq(),
    ;

    /// Whether `id` is a vertex of the graph.
    fn has_id(&self, id: usize) -> (r: bool)
        requires
            self.valid(),
        ensures
            r == self.id_seq().contains(id),
    ;

    /// The neighbors of `id` in insertion order; `UnknownId` exactly when
    /// `id` is absent.
    fn neighbors(&self, id: usize) -> (r: Result<Vec<usize>, Error>)
        requires
            self.valid(),
        ensures
            match r {
                Ok(v) => self.id_seq().contains(id) && v@ == self.adj_seq(id),
                Err(e) => e == Error::UnknownId(id) && !self.id_seq().contains(id),
            },
    ;

    /// The degree of `id`, always the length of its neighbor list;
    /// `UnknownId` exactly when `id` is absent.
    fn degree(&self, id: usize) -> (r: Result<usize, Error>)
        requires
            self.valid(),
        ensures
            match r {
                Ok(d) => self.id_seq().contains(id) && d == self.adj_seq(id).len(),
                Err(e) => e == Error::UnknownId(id) && !self.id_seq().contains(id),
            },
    ;

    /// The undirected edges, each unordered pair exactly once.
    fn edges(&self) -> (r: Vec<(usize, usize)>)
        requires
            self.valid(),
        ensures
            r@ == self.edge_seq(),
    ;

    /// Whether the undirected edge `{sid, tid}` is present; `UnknownId`
    /// exactly when one endpoint is absent (the first absent one named).
    fn has_edge(&self, sid: usize, tid: usize) -> (r: Result<bool, Error>)
        requires
            self.valid(),
        ensures
            match r {
                Ok(b) => self.id_seq().contains(sid) && self.id_seq().contains(tid) && b
                    == self.adj_seq(sid).contains(tid),
                Err(e) => (e == Error::UnknownId(sid) && !self.id_seq().contains(sid)) || (e
                    == Error::UnknownId(tid) && self.id_seq().contains(sid)
                    && !self.id_seq().contains(tid)),
            },
    ;
}

} // verus!
