//! The k-core decomposition engine: computes every vertex's coreness with
//! the Batagelj–Zaveršnik peeling scheme over a bounded-range bucket
//! queue indexed by current degree. Buckets are relocated lazily: a
//! decremented vertex is appended to its new bucket and the entry left in
//! the old one is recognized as stale (its recorded degree no longer
//! matches) and discarded when popped. Each decrement queues one entry, so
//! the total work stays linear in vertices plus adjacencies.

use vstd::prelude::*;

use crate::graph::{Error, Graph};

verus! {

broadcast use vstd::std_specs::hash::group_hash_axioms, vstd::seq_lib::group_seq_properties;

/// How many of the first `k` flags are still false.
pub open spec fn unpeeled_count(s: Seq<bool>, k: int) -> nat
    decreases k,
{
    if k <= 0 {
        0
    } else {
        unpeeled_count(s, k - 1) + if s[k - 1] {
            0nat
        } else {
            1nat
        }
    }
}

/// Two flag sequences that agree on a prefix count the same over it.
proof fn lemma_count_agree(s1: Seq<bool>, s2: Seq<bool>, k: int)
    requires
        forall|i: int| 0 <= i < k ==> s1[i] == s2[i],
    ensures
        unpeeled_count(s1, k) == unpeeled_count(s2, k),
    decreases k,
{
    if k > 0 {
        lemma_count_agree(s1, s2, k - 1);
    }
}

/// Raising one false flag lowers the count by exactly one.
proof fn lemma_count_set_true(s: Seq<bool>, v: int, k: int)
    requires
        0 <= v < k <= s.len(),
        !s[v],
    ensures
        unpeeled_count(s.update(v, true), k) + 1 == unpeeled_count(s, k),
    decreases k,
{
    if v == k - 1 {
        lemma_count_agree(s.update(v, true), s, k - 1);
    } else {
        lemma_count_set_true(s, v, k - 1);
    }
}

/// How many entries of `a` lie in `s`.
pub open spec fn count_in(a: Seq<usize>, s: Set<usize>) -> nat
    decreases a.len(),
{
    if a.len() == 0 {
        0
    } else {
        count_in(a.drop_last(), s) + if s.contains(a.last()) {
            1nat
        } else {
            0nat
        }
    }
}

/// The number of neighbors of `v` that lie inside `s`.
pub open spec fn deg_in<G: Graph>(g: &G, s: Set<usize>, v: usize) -> nat {
    count_in(g.adj_seq(v), s)
}

/// `s` is a k-core witness: every member is a vertex of the graph with at
/// least `k` neighbors inside `s`.
pub open spec fn kcore_set<G: Graph>(g: &G, s: Set<usize>, k: nat) -> bool {
    forall|v: usize| #[trigger]
        s.contains(v) ==> g.id_seq().contains(v) && deg_in(g, s, v) >= k
}

/// `c` is the coreness of `v`: the largest k such that `v` belongs to a
/// maximal subgraph in which every vertex has degree at least k within
/// that subgraph.
pub open spec fn is_core_number<G: Graph>(g: &G, v: usize, c: nat) -> bool {
    &&& exists|s: Set<usize>| #[trigger] s.contains(v) && kcore_set(g, s, c)
    &&& !(exists|s: Set<usize>| #[trigger] s.contains(v) && kcore_set(g, s, c + 1))
}

proof fn lemma_count_le_len(a: Seq<usize>, s: Set<usize>)
    ensures
        count_in(a, s) <= a.len(),
    decreases a.len(),
{
    if a.len() > 0 {
        lemma_count_le_len(a.drop_last(), s);
    }
}

proof fn lemma_count_all(a: Seq<usize>, s: Set<usize>)
    requires
        forall|j: int| 0 <= j < a.len() ==> s.contains(#[trigger] a[j]),
    ensures
        count_in(a, s) == a.len(),
    decreases a.len(),
{
    if a.len() > 0 {
        lemma_count_all(a.drop_last(), s);
    }
}

/// Two sets that agree on every entry of `a` count the same over it.
proof fn lemma_count_agree2(a: Seq<usize>, s1: Set<usize>, s2: Set<usize>)
    requires
        forall|j: int|
            0 <= j < a.len() ==> (s1.contains(#[trigger] a[j]) <==> s2.contains(a[j])),
    ensures
        count_in(a, s1) == count_in(a, s2),
    decreases a.len(),
{
    if a.len() > 0 {
        lemma_count_agree2(a.drop_last(), s1, s2);
    }
}

proof fn lemma_count_subset(a: Seq<usize>, s1: Set<usize>, s2: Set<usize>)
    requires
        forall|x: usize| s1.contains(x) ==> s2.contains(x),
    ensures
        count_in(a, s1) <= count_in(a, s2),
    decreases a.len(),
{
    if a.len() > 0 {
        lemma_count_subset(a.drop_last(), s1, s2);
    }
}

proof fn lemma_count_pos(a: Seq<usize>, s: Set<usize>)
    requires
        count_in(a, s) > 0,
    ensures
        exists|j: int| 0 <= j < a.len() && s.contains(#[trigger] a[j]),
    decreases a.len(),
{
    if s.contains(a.last()) {
        assert(s.contains(a[a.len() - 1]));
    } else {
        lemma_count_pos(a.drop_last(), s);
        let j = choose|j: int| 0 <= j < a.drop_last().len() && s.contains(a.drop_last()[j]);
        assert(s.contains(a[j]));
    }
}

/// Two sets that differ on `a`'s entries only at `x` — a member of the
/// first, not of the second, listed once — count one apart.
proof fn lemma_count_drop_one(a: Seq<usize>, s1: Set<usize>, s2: Set<usize>, x: usize)
    requires
        a.no_duplicates(),
        a.contains(x),
        s1.contains(x),
        !s2.contains(x),
        forall|j: int|
            0 <= j < a.len() && a[j] != x ==> (s1.contains(#[trigger] a[j]) <==> s2.contains(
                a[j],
            )),
    ensures
        count_in(a, s2) + 1 == count_in(a, s1),
    decreases a.len(),
{
    if a.last() == x {
        assert forall|j: int| 0 <= j < a.drop_last().len() implies (s1.contains(
            #[trigger] a.drop_last()[j],
        ) <==> s2.contains(a.drop_last()[j])) by {
            assert(a[j] != a[a.len() - 1]);
        }
        lemma_count_agree2(a.drop_last(), s1, s2);
    } else {
        let j = choose|j: int| 0 <= j < a.len() && a[j] == x;
        assert(j < a.len() - 1);
        assert(a.drop_last()[j] == x);
        assert(a.drop_last().contains(x));
        lemma_count_drop_one(a.drop_last(), s1, s2, x);
    }
}

/// Counting over a union of disjoint sets splits into two counts.
proof fn lemma_count_split(a: Seq<usize>, s1: Set<usize>, s2: Set<usize>)
    requires
        forall|x: usize| !(s1.contains(x) && #[trigger] s2.contains(x)),
    ensures
        count_in(a, s1.union(s2)) == count_in(a, s1) + count_in(a, s2),
    decreases a.len(),
{
    if a.len() > 0 {
        lemma_count_split(a.drop_last(), s1, s2);
    }
}

/// In a valid graph adjacency is symmetric and neighbor lists are
/// duplicate-free sequences over the vertex ids.
proof fn lemma_valid_adjacency<G: Graph>(g: &G, a: usize)
    requires
        g.valid(),
        g.id_seq().contains(a),
    ensures
        g.adj_seq(a).no_duplicates(),
        forall|j: int|
            0 <= j < g.adj_seq(a).len() ==> g.id_seq().contains(#[trigger] g.adj_seq(a)[j])
                && g.adj_seq(a)[j] != a,
        forall|b: usize|
            #[trigger] g.adj_seq(a).contains(b) ==> g.adj_seq(b).contains(a)
                && g.id_seq().contains(b),
{
    g.valid_facts();
    let ia = choose|i: int| 0 <= i < g.id_seq().len() && g.id_seq()[i] == a;
    assert(g.adj_seq(g.id_seq()[ia]).no_duplicates());
    assert forall|j: int| 0 <= j < g.adj_seq(a).len() implies g.id_seq().contains(
        #[trigger] g.adj_seq(a)[j],
    ) && g.adj_seq(a)[j] != a by {
        assert(g.adj_seq(g.id_seq()[ia])[j] == g.adj_seq(a)[j]);
    }
    assert forall|b: usize| #[trigger] g.adj_seq(a).contains(b) implies g.adj_seq(b).contains(a)
        && g.id_seq().contains(b) by {
        let j = choose|j: int| 0 <= j < g.adj_seq(a).len() && g.adj_seq(a)[j] == b;
        assert(g.adj_seq(g.id_seq()[ia])[j] == b);
        assert(g.edge_seq().contains((a, b)) || g.edge_seq().contains((b, a)));
        if g.edge_seq().contains((a, b)) {
            let k = choose|k: int| 0 <= k < g.edge_seq().len() && g.edge_seq()[k] == (a, b);
        } else {
            let k = choose|k: int| 0 <= k < g.edge_seq().len() && g.edge_seq()[k] == (b, a);
        }
    }
}

/// The ids whose dense position has not been peeled yet.
pub open spec fn unpeeled_ids(gsq: Seq<usize>, peeled: Seq<bool>) -> Set<usize> {
    Set::new(
        |id: usize| exists|j: int| 0 <= j < gsq.len() && #[trigger] gsq[j] == id && !peeled[j],
    )
}

/// The ids already assigned a core number of at least `c`.
pub open spec fn leveled_ids(table: Map<usize, usize>, c: nat) -> Set<usize> {
    Set::new(|id: usize| table.contains_key(id) && table[id] >= c)
}

/// One when `id` still stands in the unprocessed tail `adjx[w..]` of the
/// neighbor list being relaxed, zero otherwise.
pub open spec fn pend_one(id: usize, adjx: Seq<usize>, w: int) -> nat {
    if exists|q: int| w <= q < adjx.len() && (#[trigger] adjx[q]) == id {
        1
    } else {
        0
    }
}

/// The peeling invariant between steps. With `u` the unpeeled ids: every
/// recorded level is at most the cursor `d`; every unpeeled vertex's
/// working degree is at least `d`, counts its unpeeled neighbors from
/// above, and its unpeeled-or-as-high-leveled neighbors from below; every
/// peeled vertex keeps that lower bound at its own level; and no vertex
/// was ever peeled below the strength of a core it belongs to.
pub open spec fn peel_inv<G: Graph>(
    g: &G,
    gsq: Seq<usize>,
    deg: Seq<usize>,
    peeled: Seq<bool>,
    table: Map<usize, usize>,
    d: int,
) -> bool {
    let u = unpeeled_ids(gsq, peeled);
    &&& forall|j: int| 0 <= j < gsq.len() && peeled[j] ==> table[#[trigger] gsq[j]] <= d
    &&& forall|j: int| 0 <= j < gsq.len() && !peeled[j] ==> #[trigger] deg[j] >= d
    &&& forall|j: int|
        0 <= j < gsq.len() && !peeled[j] ==> count_in(g.adj_seq(#[trigger] gsq[j]), u) <= deg[j]
    &&& forall|j: int|
        0 <= j < gsq.len() && !peeled[j] ==> count_in(
            g.adj_seq(#[trigger] gsq[j]),
            u.union(leveled_ids(table, deg[j] as nat)),
        ) >= deg[j]
    &&& forall|j: int|
        0 <= j < gsq.len() && peeled[j] ==> count_in(
            g.adj_seq(#[trigger] gsq[j]),
            u.union(leveled_ids(table, table[gsq[j]] as nat)),
        ) >= table[gsq[j]]
    &&& forall|s: Set<usize>, k: nat, j: int|
        0 <= j < gsq.len() && peeled[j] && s.contains(#[trigger] gsq[j]) && #[trigger] kcore_set(
            g,
            s,
            k,
        ) ==> table[gsq[j]] >= k
}

/// The peeling invariant in the middle of relaxing the neighbor list
/// `adjx` of a vertex just peeled at level `d`: an unpeeled neighbor still
/// waiting in `adjx[w..]` may be one decrement behind on both counting
/// clauses.
pub open spec fn relax_inv<G: Graph>(
    g: &G,
    gsq: Seq<usize>,
    deg: Seq<usize>,
    peeled: Seq<bool>,
    table: Map<usize, usize>,
    d: int,
    adjx: Seq<usize>,
    w: int,
) -> bool {
    let u = unpeeled_ids(gsq, peeled);
    &&& forall|j: int| 0 <= j < gsq.len() && peeled[j] ==> table[#[trigger] gsq[j]] <= d
    &&& forall|j: int| 0 <= j < gsq.len() && !peeled[j] ==> #[trigger] deg[j] >= d
    &&& forall|j: int|
        0 <= j < gsq.len() && !peeled[j] ==> count_in(g.adj_seq(#[trigger] gsq[j]), u) + pend_one(
            gsq[j],
            adjx,
            w,
        ) <= deg[j]
    &&& forall|j: int|
        0 <= j < gsq.len() && !peeled[j] ==> count_in(
            g.adj_seq(#[trigger] gsq[j]),
            u.union(leveled_ids(table, deg[j] as nat)),
        ) + (if deg[j] > d {
            pend_one(gsq[j], adjx, w)
        } else {
            0nat
        }) >= deg[j]
    &&& forall|j: int|
        0 <= j < gsq.len() && peeled[j] ==> count_in(
            g.adj_seq(#[trigger] gsq[j]),
            u.union(leveled_ids(table, table[gsq[j]] as nat)),
        ) >= table[gsq[j]]
    &&& forall|s: Set<usize>, k: nat, j: int|
        0 <= j < gsq.len() && peeled[j] && s.contains(#[trigger] gsq[j]) && #[trigger] kcore_set(
            g,
            s,
            k,
        ) ==> table[gsq[j]] >= k
}

proof fn lemma_pend_step(id: usize, adjx: Seq<usize>, w: int, nb: usize)
    requires
        0 <= w < adjx.len(),
        adjx[w] == nb,
        id != nb,
    ensures
        pend_one(id, adjx, w + 1) == pend_one(id, adjx, w),
{
    if pend_one(id, adjx, w) == 1 {
        let q = choose|q: int| w <= q < adjx.len() && (#[trigger] adjx[q]) == id;
        assert(q != w);
        assert(w + 1 <= q < adjx.len() && adjx[q] == id);
    }
    if pend_one(id, adjx, w + 1) == 1 {
        let q = choose|q: int| w + 1 <= q < adjx.len() && (#[trigger] adjx[q]) == id;
        assert(w <= q < adjx.len() && adjx[q] == id);
    }
}

proof fn lemma_pend_gone(id: usize, adjx: Seq<usize>, w: int)
    requires
        adjx.no_duplicates(),
        0 <= w < adjx.len(),
        adjx[w] == id,
    ensures
        pend_one(id, adjx, w + 1) == 0,
        pend_one(id, adjx, w) == 1,
{
    assert(w <= w < adjx.len() && adjx[w] == id);
    if pend_one(id, adjx, w + 1) == 1 {
        let q = choose|q: int| w + 1 <= q < adjx.len() && (#[trigger] adjx[q]) == id;
        assert(adjx[q] == adjx[w]);
        assert(false);
    }
}

/// One relaxation step that changes nothing: the examined neighbor is
/// already peeled or already level with the cursor.
proof fn lemma_relax_step_skip<G: Graph>(
    g: &G,
    gsq: Seq<usize>,
    deg: Seq<usize>,
    peeled: Seq<bool>,
    table: Map<usize, usize>,
    d: int,
    adjx: Seq<usize>,
    w: int,
    nb: usize,
    ju: int,
)
    requires
        relax_inv(g, gsq, deg, peeled, table, d, adjx, w),
        0 <= w < adjx.len(),
        adjx[w] == nb,
        0 <= ju < gsq.len(),
        gsq[ju] == nb,
        gsq.no_duplicates(),
        peeled[ju] || deg[ju] <= d,
    ensures
        relax_inv(g, gsq, deg, peeled, table, d, adjx, w + 1),
{
    let u = unpeeled_ids(gsq, peeled);
    assert forall|j: int|
        0 <= j < gsq.len() && !peeled[j] implies count_in(g.adj_seq(#[trigger] gsq[j]), u)
        + pend_one(gsq[j], adjx, w + 1) <= deg[j] by {
        if pend_one(gsq[j], adjx, w + 1) == 1 {
            let q = choose|q: int| w + 1 <= q < adjx.len() && (#[trigger] adjx[q]) == gsq[j];
            assert(w <= q < adjx.len() && adjx[q] == gsq[j]);
            assert(pend_one(gsq[j], adjx, w) == 1);
        }
    }
    assert forall|j: int|
        0 <= j < gsq.len() && !peeled[j] implies count_in(
        g.adj_seq(#[trigger] gsq[j]),
        u.union(leveled_ids(table, deg[j] as nat)),
    ) + (if deg[j] > d {
        pend_one(gsq[j], adjx, w + 1)
    } else {
        0nat
    }) >= deg[j] by {
        if j != ju {
            assert(gsq[j] != nb);
            lemma_pend_step(gsq[j], adjx, w, nb);
        }
    }
}

/// One relaxation step that lowers the examined unpeeled neighbor by one
/// level.
proof fn lemma_relax_step_dec<G: Graph>(
    g: &G,
    gsq: Seq<usize>,
    deg0: Seq<usize>,
    deg1: Seq<usize>,
    peeled: Seq<bool>,
    table: Map<usize, usize>,
    d: int,
    adjx: Seq<usize>,
    w: int,
    nb: usize,
    ju: int,
)
    requires
        relax_inv(g, gsq, deg0, peeled, table, d, adjx, w),
        deg0.len() == gsq.len(),
        0 <= w < adjx.len(),
        adjx[w] == nb,
        adjx.no_duplicates(),
        0 <= ju < gsq.len(),
        gsq[ju] == nb,
        gsq.no_duplicates(),
        !peeled[ju],
        deg0[ju] > d,
        deg1 == deg0.update(ju, (deg0[ju] - 1) as usize),
    ensures
        relax_inv(g, gsq, deg1, peeled, table, d, adjx, w + 1),
{
    let u = unpeeled_ids(gsq, peeled);
    lemma_pend_gone(nb, adjx, w);
    assert forall|j: int|
        0 <= j < gsq.len() && !peeled[j] implies count_in(g.adj_seq(#[trigger] gsq[j]), u)
        + pend_one(gsq[j], adjx, w + 1) <= deg1[j] by {
        if j == ju {
            assert(count_in(g.adj_seq(gsq[j]), u) + pend_one(gsq[j], adjx, w) <= deg0[ju]);
            assert(pend_one(gsq[j], adjx, w) == 1);
            assert(pend_one(gsq[j], adjx, w + 1) == 0);
        } else {
            assert(gsq[j] != nb);
            lemma_pend_step(gsq[j], adjx, w, nb);
            assert(deg1[j] == deg0[j]);
        }
    }
    assert forall|j: int|
        0 <= j < gsq.len() && !peeled[j] implies count_in(
        g.adj_seq(#[trigger] gsq[j]),
        u.union(leveled_ids(table, deg1[j] as nat)),
    ) + (if deg1[j] > d {
        pend_one(gsq[j], adjx, w + 1)
    } else {
        0nat
    }) >= deg1[j] by {
        if j == ju {
            assert(count_in(g.adj_seq(gsq[j]), u.union(leveled_ids(table, deg0[ju] as nat))) + (
            if deg0[ju] > d {
                pend_one(gsq[j], adjx, w)
            } else {
                0nat
            }) >= deg0[ju]);
            assert(pend_one(gsq[j], adjx, w) == 1);
            assert forall|x: usize|
                (u.union(leveled_ids(table, deg0[ju] as nat))).contains(x) implies (u.union(
                leveled_ids(table, deg1[ju] as nat),
            )).contains(x) by {}
            lemma_count_subset(
                g.adj_seq(gsq[j]),
                u.union(leveled_ids(table, deg0[ju] as nat)),
                u.union(leveled_ids(table, deg1[ju] as nat)),
            );
        } else {
            assert(gsq[j] != nb);
            lemma_pend_step(gsq[j], adjx, w, nb);
            assert(deg1[j] == deg0[j]);
        }
    }
}

/// The coreness of every vertex of one graph, computed once per run and
/// held until handed to the caller.
pub struct Kcores<'a, G: Graph> {
    core_numbers: std::collections::HashMap<usize, usize>,
    graph: &'a G,
}

impl<'a, G: Graph> Kcores<'a, G> {
    /// The finished core-number table: vertex id to coreness.
    pub closed spec fn table(&self) -> Map<usize, usize> {
        self.core_numbers@
    }

    /// The graph being decomposed.
    pub closed spec fn g(&self) -> &'a G {
        self.graph
    }

    /// A fresh engine with an empty table.
    pub fn new(graph: &'a G) -> (r: Self)
        ensures
            r.g() == graph,
            r.table() == Map::<usize, usize>::empty(),
    {
        Kcores { core_numbers: std::collections::HashMap::new(), graph }
    }

    /// Look up the computed core number of `id`.
    pub fn core_number(&self, id: usize) -> (r: Option<usize>)
        ensures
            match r {
                Some(c) => self.table().contains_key(id) && c == self.table()[id],
                None => !self.table().contains_key(id),
            },
    {
        match self.core_numbers.get(&id) {
            Some(c) => Some(*c),
            None => None,
        }
    }

    /// Run the bucket-queue peeling pass. Afterwards the table holds one
    /// entry per vertex of the graph — exactly the vertex ids, no other
    /// key — and every vertex's core number is at most its degree. On a
    /// valid graph the initial scan cannot fail, so the run always
    /// succeeds.
    pub fn cores_by_batagelj(&mut self) -> (r: Result<(), Error>)
        requires
            old(self).g().valid(),
        ensures
            r.is_ok(),
            final(self).g() == old(self).g(),
            forall|id: usize|
                #[trigger] final(self).table().contains_key(id) <==> old(
                    self,
                ).g().id_seq().contains(id),
            forall|id: usize|
                final(self).table().contains_key(id) ==> #[trigger] final(self).table()[id] <= old(
                    self,
                ).g().adj_seq(id).len(),
            forall|id: usize|
                final(self).table().contains_key(id) && old(self).g().adj_seq(id).len() == 0
                    ==> #[trigger] final(self).table()[id] == 0,
            forall|id: usize|
                #[trigger] final(self).table().contains_key(id) ==> is_core_number(
                    old(self).g(),
                    id,
                    final(self).table()[id] as nat,
                ),
    {
        let ghost gsq = self.graph.id_seq();
        proof {
            self.graph.valid_facts();
        }
        let ids = self.graph.ids();
        let n = ids.len();

        // dense position of each id
        let mut pos: std::collections::HashMap<usize, usize> = std::collections::HashMap::new();
        let mut i: usize = 0;
        while i < n
            invariant
                0 <= i <= n,
                n == gsq.len(),
                ids@ == gsq,
                gsq.no_duplicates(),
                forall|j: int| 0 <= j < i ==> pos@.contains_key(#[trigger] gsq[j]),
                forall|k: usize| #[trigger]
                    pos@.contains_key(k) ==> pos@[k] < i && gsq[pos@[k] as int] == k,
            decreases n - i,
        {
            let ghost pos0 = pos@;
            pos.insert(ids[i], i);
            proof {
                assert forall|k: usize| #[trigger] pos@.contains_key(k) implies pos@[k] < i + 1
                    && gsq[pos@[k] as int] == k by {
                    if k == gsq[i as int] {
                        assert(pos@[k] == i);
                    } else {
                        assert(pos0.contains_key(k));
                        assert(pos@[k] == pos0[k]);
                    }
                }
            }
            i += 1;
        }

        // initial degrees and the maximum degree
        let mut deg: Vec<usize> = Vec::new();
        let mut maxdeg: usize = 0;
        i = 0;
        while i < n
            invariant
                0 <= i <= n,
                n == gsq.len(),
                ids@ == gsq,
                self.graph == old(self).graph,
                self.graph.valid(),
                gsq == self.graph.id_seq(),
                deg@.len() == i,
                forall|j: int|
                    0 <= j < i ==> #[trigger] deg@[j] == self.graph.adj_seq(gsq[j]).len()
                        && deg@[j] <= maxdeg,
            decreases n - i,
        {
            let d = match self.graph.degree(ids[i]) {
                Ok(d) => d,
                Err(_) => {
                    proof {
                        assert(gsq.contains(gsq[i as int]));
                        assert(false);
                    }
                    return Err(Error::UnknownId(ids[i]));
                },
            };
            if d > maxdeg {
                maxdeg = d;
            }
            deg.push(d);
            i += 1;
        }

        // one bucket per possible current degree: 0 ..= maxdeg
        let mut buckets: Vec<Vec<usize>> = Vec::new();
        i = 0;
        while i < maxdeg
            invariant
                0 <= i <= maxdeg,
                buckets@.len() == i,
                forall|b: int| 0 <= b < i ==> (#[trigger] buckets@[b])@ =~= Seq::<usize>::empty(),
            decreases maxdeg - i,
        {
            buckets.push(Vec::new());
            i += 1;
        }
        buckets.push(Vec::new());

        // every vertex starts in the bucket of its initial degree
        i = 0;
        while i < n
            invariant
                0 <= i <= n,
                n == gsq.len(),
                deg@.len() == n,
                buckets@.len() == maxdeg + 1,
                forall|j: int| 0 <= j < n ==> #[trigger] deg@[j] <= maxdeg,
                forall|j: int|
                    0 <= j < i ==> (#[trigger] buckets@[deg@[j] as int])@.contains(j as usize),
                forall|b: int, k: int|
                    0 <= b < buckets@.len() && 0 <= k < (buckets@[b])@.len()
                        ==> #[trigger] (buckets@[b])@[k] < n,
            decreases n - i,
        {
            let db = deg[i];
            buckets[db].push(i);
            proof {
                assert forall|j: int| 0 <= j < i + 1 implies (#[trigger] buckets@[deg@[j]
                    as int])@.contains(j as usize) by {
                    if j < i {
                        let b0 = deg@[j] as int;
                        if b0 == db as int {
                            assert((buckets@[b0])@.len() > 0);
                        }
                    } else {
                        assert((buckets@[db as int])@.last() == i as usize);
                    }
                }
            }
            i += 1;
        }

        let mut peeled: Vec<bool> = Vec::new();
        i = 0;
        while i < n
            invariant
                0 <= i <= n,
                peeled@.len() == i,
                forall|j: int| 0 <= j < i ==> !(#[trigger] peeled@[j]),
            decreases n - i,
        {
            peeled.push(false);
            i += 1;
        }
        self.core_numbers = std::collections::HashMap::new();
        proof {
            let u0 = unpeeled_ids(gsq, peeled@);
            assert forall|j: int| 0 <= j < n implies u0.contains(#[trigger] gsq[j]) by {}
            assert(peel_inv(self.graph, gsq, deg@, peeled@, self.table(), 0int)) by {
                assert forall|j: int|
                    0 <= j < gsq.len() && !peeled@[j] implies count_in(
                    self.graph.adj_seq(#[trigger] gsq[j]),
                    u0,
                ) <= deg@[j] by {
                    lemma_count_le_len(self.graph.adj_seq(gsq[j]), u0);
                }
                assert forall|j: int|
                    0 <= j < gsq.len() && !peeled@[j] implies count_in(
                    self.graph.adj_seq(#[trigger] gsq[j]),
                    u0.union(leveled_ids(self.table(), deg@[j] as nat)),
                ) >= deg@[j] by {
                    let a = self.graph.adj_seq(gsq[j]);
                    lemma_valid_adjacency(self.graph, gsq[j]);
                    assert forall|q: int|
                        0 <= q < a.len() implies (u0.union(
                        leveled_ids(self.table(), deg@[j] as nat),
                    )).contains(#[trigger] a[q]) by {
                        let jq = choose|jq: int| 0 <= jq < gsq.len() && gsq[jq] == a[q];
                        assert(u0.contains(gsq[jq]));
                    }
                    lemma_count_all(a, u0.union(leveled_ids(self.table(), deg@[j] as nat)));
                }
            }
        }

        // peel in nondecreasing order of current degree
        let mut d: usize = 0;
        while d < buckets.len()
            invariant
                n == gsq.len(),
                ids@ == gsq,
                gsq.no_duplicates(),
                self.graph == old(self).graph,
                self.graph.valid(),
                gsq == self.graph.id_seq(),
                deg@.len() == n,
                peeled@.len() == n,
                buckets@.len() == maxdeg + 1,
                0 <= d <= buckets@.len(),
                forall|k: usize| #[trigger]
                    pos@.contains_key(k) ==> pos@[k] < n && gsq[pos@[k] as int] == k,
                forall|j: int| 0 <= j < n ==> pos@.contains_key(#[trigger] gsq[j]),
                // current degrees never exceed the initial ones
                forall|j: int|
                    0 <= j < n ==> #[trigger] deg@[j] <= self.graph.adj_seq(gsq[j]).len()
                        && deg@[j] <= maxdeg,
                // every bucket entry is a vertex
                forall|b: int, k: int|
                    0 <= b < buckets@.len() && 0 <= k < (buckets@[b])@.len()
                        ==> #[trigger] (buckets@[b])@[k] < n,
                // every unpeeled vertex sits in the bucket of its degree
                forall|j: int|
                    0 <= j < n && !peeled@[j] ==> (#[trigger] buckets@[deg@[j] as int])@.contains(
                        j as usize,
                    ),
                // buckets below the cursor have been drained
                forall|b: int| 0 <= b < d ==> (#[trigger] buckets@[b])@.len() == 0,
                // the table holds exactly the peeled vertices
                forall|j: int|
                    0 <= j < n ==> (#[trigger] peeled@[j] <==> self.table().contains_key(gsq[j])),
                forall|id: usize| #[trigger]
                    self.table().contains_key(id) ==> gsq.contains(id),
                // a peeled vertex's core number is at most its degree
                forall|j: int|
                    0 <= j < n && #[trigger] peeled@[j] ==> self.table()[gsq[j]]
                        <= self.graph.adj_seq(gsq[j]).len(),
                peel_inv(self.graph, gsq, deg@, peeled@, self.table(), d as int),
            decreases buckets@.len() - d,
        {
            while buckets[d].len() > 0
                invariant
                    n == gsq.len(),
                    ids@ == gsq,
                    gsq.no_duplicates(),
                    self.graph == old(self).graph,
                    self.graph.valid(),
                    gsq == self.graph.id_seq(),
                    deg@.len() == n,
                    peeled@.len() == n,
                    buckets@.len() == maxdeg + 1,
                    0 <= d < buckets@.len(),
                    forall|k: usize| #[trigger]
                        pos@.contains_key(k) ==> pos@[k] < n && gsq[pos@[k] as int] == k,
                    forall|j: int| 0 <= j < n ==> pos@.contains_key(#[trigger] gsq[j]),
                    forall|j: int|
                        0 <= j < n ==> #[trigger] deg@[j] <= self.graph.adj_seq(gsq[j]).len()
                            && deg@[j] <= maxdeg,
                    forall|b: int, k: int|
                        0 <= b < buckets@.len() && 0 <= k < (buckets@[b])@.len()
                            ==> #[trigger] (buckets@[b])@[k] < n,
                    forall|j: int|
                        0 <= j < n && !peeled@[j] ==> (#[trigger] buckets@[deg@[j]
                            as int])@.contains(j as usize),
                    forall|b: int| 0 <= b < d ==> (#[trigger] buckets@[b])@.len() == 0,
                    forall|j: int|
                        0 <= j < n ==> (#[trigger] peeled@[j] <==> self.table().contains_key(
                            gsq[j],
                        )),
                    forall|id: usize| #[trigger]
                        self.table().contains_key(id) ==> gsq.contains(id),
                    forall|j: int|
                        0 <= j < n && #[trigger] peeled@[j] ==> self.table()[gsq[j]]
                            <= self.graph.adj_seq(gsq[j]).len(),
                    peel_inv(self.graph, gsq, deg@, peeled@, self.table(), d as int),
                decreases unpeeled_count(peeled@, n as int), (buckets@[d as int])@.len(),
            {
                let ghost buckets0 = buckets@;
                let popped = buckets[d].pop();
                let v = match popped {
                    Some(v) => v,
                    None => {
                        proof {
                            assert(false);
                        }
                        return Err(Error::UnknownId(0));
                    },
                };
                proof {
                    assert((buckets0[d as int])@.last() == v);
                    assert(v < n);
                    assert forall|j: int| 0 <= j < n && !peeled@[j] && deg@[j] != d implies (
                    #[trigger] buckets@[deg@[j] as int])@.contains(j as usize) by {
                        assert((buckets@[deg@[j] as int])@ == (buckets0[deg@[j] as int])@);
                    }
                    assert forall|j: int|
                        0 <= j < n && !peeled@[j] && deg@[j] == d && j != v implies (
                    #[trigger] buckets@[deg@[j] as int])@.contains(j as usize) by {
                        let k = choose|k: int|
                            0 <= k < (buckets0[d as int])@.len() && (buckets0[d as int])@[k]
                                == j as usize;
                        assert(k < (buckets0[d as int])@.len() - 1);
                        assert((buckets@[d as int])@[k] == j as usize);
                    }
                }
                let already = peeled[v];
                let dv = deg[v];
                if already || dv != d {
                    // a stale entry: the vertex was peeled or relocated
                    // since this entry was queued
                } else {
                    let ghost gref = self.graph;
                    let ghost xid = gsq[v as int];
                    let ghost adj = self.graph.adj_seq(xid);
                    let ghost u0 = unpeeled_ids(gsq, peeled@);
                    let ghost table0 = self.table();
                    proof {
                        assert(gsq.contains(xid));
                        lemma_valid_adjacency(gref, xid);
                        // the peel level dominates every core strength the
                        // peeled vertex belongs to
                        assert forall|s: Set<usize>, k: nat|
                            s.contains(xid) && #[trigger] kcore_set(gref, s, k) implies k
                            <= d by {
                            assert(deg_in(gref, s, xid) >= k);
                            let su = s.intersect(u0);
                            let sp = s.difference(u0);
                            assert(s =~= su.union(sp));
                            lemma_count_split(adj, su, sp);
                            if count_in(adj, sp) > 0 {
                                lemma_count_pos(adj, sp);
                                let q = choose|q: int|
                                    0 <= q < adj.len() && sp.contains(#[trigger] adj[q]);
                                let y = adj[q];
                                assert(s.contains(y));
                                assert(gref.id_seq().contains(y));
                                let jy = choose|jy: int| 0 <= jy < gsq.len() && gsq[jy] == y;
                                assert(peeled@[jy]) by {
                                    if !peeled@[jy] {
                                        assert(u0.contains(gsq[jy]));
                                    }
                                }
                                assert(s.contains(gsq[jy]));
                                assert(self.table()[gsq[jy]] >= k);
                                assert(self.table()[gsq[jy]] <= d);
                            } else {
                                assert(count_in(adj, su) >= k);
                                assert forall|x: usize| su.contains(x) implies u0.contains(
                                    x,
                                ) by {}
                                lemma_count_subset(adj, su, u0);
                                assert(count_in(gref.adj_seq(gsq[v as int]), u0) <= deg@[v
                                    as int]);
                            }
                        }
                    }
                    self.core_numbers.insert(ids[v], d);
                    let ghost peeled0 = peeled@;
                    peeled[v] = true;
                    let ghost u1 = unpeeled_ids(gsq, peeled@);
                    proof {
                        lemma_count_set_true(peeled0, v as int, n as int);
                        assert forall|j: int|
                            0 <= j < n && j != v implies gsq[j] != xid by {}
                        assert forall|j: int|
                            0 <= j < n implies (#[trigger] peeled@[j]
                                <==> self.table().contains_key(gsq[j])) by {}
                        assert forall|y: usize| #[trigger]
                            u1.contains(y) <==> (u0.contains(y) && y != xid) by {
                            if u1.contains(y) {
                                let j = choose|j: int|
                                    0 <= j < gsq.len() && (#[trigger] gsq[j]) == y
                                        && !peeled@[j];
                                assert(j != v);
                                assert(!peeled0[j]);
                                assert(u0.contains(y));
                            }
                            if u0.contains(y) && y != xid {
                                let j = choose|j: int|
                                    0 <= j < gsq.len() && (#[trigger] gsq[j]) == y
                                        && !peeled0[j];
                                assert(j != v);
                                assert(!peeled@[j]);
                                assert(u1.contains(y));
                            }
                        }
                        assert(relax_inv(
                            gref,
                            gsq,
                            deg@,
                            peeled@,
                            self.table(),
                            d as int,
                            adj,
                            0int,
                        )) by {
                            assert forall|j: int|
                                0 <= j < gsq.len() && peeled@[j] implies self.table()[
                                #[trigger] gsq[j]] <= d by {
                                if j != v {
                                    assert(peeled0[j]);
                                }
                            }
                            assert forall|j: int|
                                0 <= j < gsq.len() && !peeled@[j] implies count_in(
                                gref.adj_seq(#[trigger] gsq[j]),
                                u1,
                            ) + pend_one(gsq[j], adj, 0) <= deg@[j] by {
                                lemma_valid_adjacency(gref, gsq[j]);
                                let a = gref.adj_seq(gsq[j]);
                                assert(!peeled0[j]);
                                assert(count_in(a, u0) <= deg@[j]);
                                if a.contains(xid) {
                                    lemma_count_drop_one(a, u0, u1, xid);
                                    assert(gref.adj_seq(xid).contains(gsq[j]));
                                    let q = choose|q: int|
                                        0 <= q < adj.len() && adj[q] == gsq[j];
                                    assert(pend_one(gsq[j], adj, 0) == 1);
                                } else {
                                    assert forall|q: int|
                                        0 <= q < a.len() implies (u0.contains(#[trigger] a[q])
                                            <==> u1.contains(a[q])) by {
                                        assert(a[q] != xid);
                                    }
                                    lemma_count_agree2(a, u0, u1);
                                    assert(pend_one(gsq[j], adj, 0) == 0) by {
                                        if pend_one(gsq[j], adj, 0) == 1 {
                                            let q = choose|q: int|
                                                0 <= q < adj.len() && (#[trigger] adj[q])
                                                    == gsq[j];
                                            assert(adj.contains(gsq[j]));
                                            assert(gref.adj_seq(gsq[j]).contains(xid));
                                        }
                                    }
                                }
                            }
                            assert forall|j: int|
                                0 <= j < gsq.len() && !peeled@[j] implies count_in(
                                gref.adj_seq(#[trigger] gsq[j]),
                                u1.union(leveled_ids(self.table(), deg@[j] as nat)),
                            ) + (if deg@[j] > d {
                                pend_one(gsq[j], adj, 0)
                            } else {
                                0nat
                            }) >= deg@[j] by {
                                lemma_valid_adjacency(gref, gsq[j]);
                                let a = gref.adj_seq(gsq[j]);
                                let lv0 = leveled_ids(table0, deg@[j] as nat);
                                let lv1 = leveled_ids(self.table(), deg@[j] as nat);
                                assert(!peeled0[j]);
                                assert(count_in(a, u0.union(lv0)) >= deg@[j]);
                                assert(deg@[j] >= d);
                                if deg@[j] == d {
                                    assert forall|q: int|
                                        0 <= q < a.len() implies ((u0.union(lv0)).contains(
                                        #[trigger] a[q],
                                        ) <==> (u1.union(lv1)).contains(a[q])) by {
                                        if a[q] == xid {
                                            assert((u0.union(lv0)).contains(xid));
                                            assert(lv1.contains(xid));
                                        }
                                    }
                                    lemma_count_agree2(a, u0.union(lv0), u1.union(lv1));
                                } else {
                                    if a.contains(xid) {
                                        assert((u0.union(lv0)).contains(xid));
                                        assert(!(u1.union(lv1)).contains(xid)) by {
                                            assert(!table0.contains_key(xid));
                                        }
                                        assert forall|q: int|
                                            0 <= q < a.len() && a[q] != xid implies ((u0.union(
                                            lv0,
                                        )).contains(#[trigger] a[q]) <==> (u1.union(
                                            lv1,
                                        )).contains(a[q])) by {}
                                        lemma_count_drop_one(
                                            a,
                                            u0.union(lv0),
                                            u1.union(lv1),
                                            xid,
                                        );
                                        assert(gref.adj_seq(xid).contains(gsq[j]));
                                        let q = choose|q: int|
                                            0 <= q < adj.len() && adj[q] == gsq[j];
                                        assert(pend_one(gsq[j], adj, 0) == 1);
                                    } else {
                                        assert forall|q: int|
                                            0 <= q < a.len() implies ((u0.union(lv0)).contains(
                                            #[trigger] a[q],
                                        ) <==> (u1.union(lv1)).contains(a[q])) by {
                                            assert(a[q] != xid);
                                        }
                                        lemma_count_agree2(a, u0.union(lv0), u1.union(lv1));
                                    }
                                }
                            }
                            assert forall|j: int|
                                0 <= j < gsq.len() && peeled@[j] implies count_in(
                                gref.adj_seq(#[trigger] gsq[j]),
                                u1.union(
                                    leveled_ids(self.table(), self.table()[gsq[j]] as nat),
                                ),
                            ) >= self.table()[gsq[j]] by {
                                lemma_valid_adjacency(gref, gsq[j]);
                                let a = gref.adj_seq(gsq[j]);
                                let cj = self.table()[gsq[j]];
                                let lv0 = leveled_ids(table0, cj as nat);
                                let lv1 = leveled_ids(self.table(), cj as nat);
                                if j == v {
                                    assert(cj == d);
                                    assert(!peeled0[j]);
                                    assert(count_in(
                                        a,
                                        u0.union(leveled_ids(table0, deg@[j] as nat)),
                                    ) >= deg@[j]);
                                    assert forall|q: int|
                                        0 <= q < a.len() implies ((u0.union(lv0)).contains(
                                        #[trigger] a[q],
                                    ) <==> (u1.union(lv1)).contains(a[q])) by {
                                        assert(a[q] != xid);
                                    }
                                    lemma_count_agree2(a, u0.union(lv0), u1.union(lv1));
                                } else {
                                    assert(peeled0[j]);
                                    assert(cj == table0[gsq[j]]);
                                    assert(count_in(a, u0.union(lv0)) >= cj);
                                    assert(cj <= d);
                                    assert forall|q: int|
                                        0 <= q < a.len() implies ((u0.union(lv0)).contains(
                                        #[trigger] a[q],
                                    ) <==> (u1.union(lv1)).contains(a[q])) by {
                                        if a[q] == xid {
                                            assert((u0.union(lv0)).contains(xid));
                                            assert(lv1.contains(xid));
                                        }
                                    }
                                    lemma_count_agree2(a, u0.union(lv0), u1.union(lv1));
                                }
                            }
                            assert forall|s: Set<usize>, k: nat, j: int|
                                0 <= j < gsq.len() && peeled@[j] && s.contains(
                                    #[trigger] gsq[j],
                                ) && #[trigger] kcore_set(gref, s, k) implies self.table()[
                            gsq[j]] >= k by {
                                if j == v {
                                    assert(s.contains(xid));
                                    assert(k <= d);
                                } else {
                                    assert(peeled0[j]);
                                    assert(table0[gsq[j]] >= k);
                                }
                            }
                        }
                    }
                    let neighbors = match self.graph.neighbors(ids[v]) {
                        Ok(nbs) => nbs,
                        Err(_) => {
                            proof {
                                assert(gsq.contains(gsq[v as int]));
                                assert(false);
                            }
                            return Err(Error::UnknownId(0));
                        },
                    };
                    proof {
                        assert forall|j: int| 0 <= j < adj.len() implies gsq.contains(
                            #[trigger] adj[j],
                        ) by {
                            lemma_valid_adjacency(gref, xid);
                        }
                    }
                    let mut w: usize = 0;
                    while w < neighbors.len()
                        invariant
                            n == gsq.len(),
                            ids@ == gsq,
                            gsq.no_duplicates(),
                            self.graph == old(self).graph,
                            self.graph.valid(),
                            gsq == self.graph.id_seq(),
                            deg@.len() == n,
                            peeled@.len() == n,
                            buckets@.len() == maxdeg + 1,
                            0 <= d < buckets@.len(),
                            0 <= w <= neighbors@.len(),
                            neighbors@ == adj,
                            v < n,
                            peeled@[v as int],
                            forall|j: int| 0 <= j < adj.len() ==> gsq.contains(#[trigger] adj[j]),
                            forall|k: usize| #[trigger]
                                pos@.contains_key(k) ==> pos@[k] < n && gsq[pos@[k] as int] == k,
                            forall|j: int| 0 <= j < n ==> pos@.contains_key(#[trigger] gsq[j]),
                            forall|j: int|
                                0 <= j < n ==> #[trigger] deg@[j] <= self.graph.adj_seq(
                                    gsq[j],
                                ).len() && deg@[j] <= maxdeg,
                            forall|b: int, k: int|
                                0 <= b < buckets@.len() && 0 <= k < (buckets@[b])@.len()
                                    ==> #[trigger] (buckets@[b])@[k] < n,
                            forall|j: int|
                                0 <= j < n && !peeled@[j] ==> (#[trigger] buckets@[deg@[j]
                                    as int])@.contains(j as usize),
                            forall|b: int| 0 <= b < d ==> (#[trigger] buckets@[b])@.len() == 0,
                            forall|j: int|
                                0 <= j < n ==> (#[trigger] peeled@[j]
                                    <==> self.table().contains_key(gsq[j])),
                            forall|id: usize| #[trigger]
                                self.table().contains_key(id) ==> gsq.contains(id),
                            forall|j: int|
                                0 <= j < n && #[trigger] peeled@[j] ==> self.table()[gsq[j]]
                                    <= self.graph.adj_seq(gsq[j]).len(),
                            gsq[v as int] == xid,
                            adj == self.graph.adj_seq(xid),
                            adj.no_duplicates(),
                            relax_inv(
                                self.graph,
                                gsq,
                                deg@,
                                peeled@,
                                self.table(),
                                d as int,
                                adj,
                                w as int,
                            ),
                        decreases neighbors@.len() - w,
                    {
                        let nb = neighbors[w];
                        let u = match pos.get(&nb) {
                            Some(u) => *u,
                            None => {
                                proof {
                                    assert(gsq.contains(adj[w as int]));
                                    let j = choose|j: int|
                                        0 <= j < gsq.len() && gsq[j] == adj[w as int];
                                    assert(pos@.contains_key(gsq[j]));
                                    assert(false);
                                }
                                return Err(Error::UnknownId(0));
                            },
                        };
                        proof {
                            assert(gsq[u as int] == nb);
                            assert(adj[w as int] == nb);
                        }
                        let ghost degb = deg@;
                        if !peeled[u] {
                            let du = deg[u];
                            if du > d {
                                let ghost bucketsb = buckets@;
                                deg[u] = du - 1;
                                buckets[du - 1].push(u);
                                proof {
                                    assert forall|j: int|
                                        0 <= j < n && !peeled@[j] implies (
                                    #[trigger] buckets@[deg@[j] as int])@.contains(j as usize) by {
                                        if j == u as int {
                                            assert((buckets@[du - 1 as int])@.last()
                                                == u as usize);
                                        } else {
                                            let b0 = deg@[j] as int;
                                            if b0 == du - 1 {
                                                assert((bucketsb[b0])@.contains(j as usize));
                                                let k = choose|k: int|
                                                    0 <= k < (bucketsb[b0])@.len() && (
                                                    bucketsb[b0])@[k] == j as usize;
                                                assert((buckets@[b0])@[k] == j as usize);
                                            } else {
                                                assert((buckets@[b0])@ == (bucketsb[b0])@);
                                            }
                                        }
                                    }
                                    assert(deg@ == degb.update(u as int, (degb[u as int] - 1) as usize));
                                    lemma_relax_step_dec(
                                        self.graph,
                                        gsq,
                                        degb,
                                        deg@,
                                        peeled@,
                                        self.table(),
                                        d as int,
                                        adj,
                                        w as int,
                                        nb,
                                        u as int,
                                    );
                                }
                            } else {
                                proof {
                                    lemma_relax_step_skip(
                                        self.graph,
                                        gsq,
                                        deg@,
                                        peeled@,
                                        self.table(),
                                        d as int,
                                        adj,
                                        w as int,
                                        nb,
                                        u as int,
                                    );
                                }
                            }
                        } else {
                            proof {
                                lemma_relax_step_skip(
                                    self.graph,
                                    gsq,
                                    deg@,
                                    peeled@,
                                    self.table(),
                                    d as int,
                                    adj,
                                    w as int,
                                    nb,
                                    u as int,
                                );
                            }
                        }
                        w += 1;
                    }
                    proof {
                        assert(peel_inv(self.graph, gsq, deg@, peeled@, self.table(), d as int))
                            by {
                            assert forall|j: int|
                                0 <= j < gsq.len() implies pend_one(
                                #[trigger] gsq[j],
                                adj,
                                adj.len() as int,
                            ) == 0 by {
                                if pend_one(gsq[j], adj, adj.len() as int) == 1 {
                                    let q = choose|q: int|
                                        adj.len() <= q < adj.len() && (#[trigger] adj[q]) == gsq[
                                        j];
                                }
                            }
                        }
                    }
                }
            }
            proof {
                assert forall|j: int| 0 <= j < n && !peeled@[j] implies #[trigger] deg@[j] >= d
                    + 1 by {
                    assert((buckets@[deg@[j] as int])@.contains(j as usize));
                    if deg@[j] == d {
                        let k = choose|k: int|
                            0 <= k < (buckets@[d as int])@.len() && (buckets@[d as int])@[k] == j
                                as usize;
                    }
                }
            }
            d += 1;
        }
        proof {
            assert forall|j: int| 0 <= j < n implies #[trigger] peeled@[j] by {
                if !peeled@[j] {
                    assert((buckets@[deg@[j] as int])@.contains(j as usize));
                    assert((buckets@[deg@[j] as int])@.len() == 0);
                }
            }
            assert forall|id: usize|
                #[trigger] self.table().contains_key(id) <==> gsq.contains(id) by {
                if gsq.contains(id) {
                    let j = choose|j: int| 0 <= j < gsq.len() && gsq[j] == id;
                    assert(peeled@[j]);
                }
            }
            assert forall|id: usize|
                self.table().contains_key(id) implies #[trigger] self.table()[id]
                <= self.graph.adj_seq(id).len() by {
                let j = choose|j: int| 0 <= j < gsq.len() && gsq[j] == id;
                assert(peeled@[j]);
            }
            let ue = unpeeled_ids(gsq, peeled@);
            assert(ue =~= Set::<usize>::empty()) by {
                assert forall|y: usize| !(#[trigger] ue.contains(y)) by {
                    if ue.contains(y) {
                        let j = choose|j: int|
                            0 <= j < gsq.len() && (#[trigger] gsq[j]) == y && !peeled@[j];
                    }
                }
            }
            assert forall|id: usize|
                #[trigger] self.table().contains_key(id) implies is_core_number(
                self.graph,
                id,
                self.table()[id] as nat,
            ) by {
                let jv = choose|jv: int| 0 <= jv < gsq.len() && gsq[jv] == id;
                assert(peeled@[jv]);
                let c0 = self.table()[id] as nat;
                let ss = leveled_ids(self.table(), c0);
                assert(ss.contains(id));
                assert(kcore_set(self.graph, ss, c0)) by {
                    assert forall|y: usize| #[trigger]
                        ss.contains(y) implies self.graph.id_seq().contains(y) && deg_in(
                        self.graph,
                        ss,
                        y,
                    ) >= c0 by {
                        assert(self.table().contains_key(y));
                        assert(gsq.contains(y));
                        let jy = choose|jy: int| 0 <= jy < gsq.len() && gsq[jy] == y;
                        assert(peeled@[jy]);
                        let cy = self.table()[y];
                        assert(count_in(
                            self.graph.adj_seq(gsq[jy]),
                            ue.union(leveled_ids(self.table(), cy as nat)),
                        ) >= cy);
                        assert(ue.union(leveled_ids(self.table(), cy as nat)) =~= leveled_ids(
                            self.table(),
                            cy as nat,
                        ));
                        assert forall|x: usize|
                            leveled_ids(self.table(), cy as nat).contains(x) implies ss.contains(
                            x,
                        ) by {}
                        lemma_count_subset(
                            self.graph.adj_seq(y),
                            leveled_ids(self.table(), cy as nat),
                            ss,
                        );
                    }
                }
                assert(!(exists|s: Set<usize>| #[trigger] s.contains(id) && kcore_set(
                    self.graph,
                    s,
                    c0 + 1,
                ))) by {
                    if exists|s: Set<usize>| #[trigger] s.contains(id) && kcore_set(
                        self.graph,
                        s,
                        c0 + 1,
                    ) {
                        let s = choose|s: Set<usize>| #[trigger]
                            s.contains(id) && kcore_set(self.graph, s, c0 + 1);
                        assert(s.contains(gsq[jv]));
                        assert(self.table()[gsq[jv]] >= c0 + 1);
                        assert(false);
                    }
                }
            }
        }
        Ok(())
    }
}

} // verus!
