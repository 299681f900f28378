//! A graph stored as an adjacency list: one vector of out-neighbours per
//! vertex, plus a running edge count.

use vstd::prelude::*;
use crate::graphs::{
    lemma_rows_filter_multiset, lemma_source_push, pairs_wf, rows_are_filters, rows_pairs,
    source_filtered, FromEdges, To,
};

verus! {

/// The number of edges in the first `k` rows.
pub open spec fn total_edges<E>(m: Seq<Vec<To<E>>>, k: int) -> int
    decreases k,
{
    if k <= 0 {
        0
    } else {
        total_edges(m, k - 1) + m[k - 1]@.len()
    }
}

/// Row prefixes with equal lengths contribute equal totals.
proof fn lemma_total_congruent<E>(m1: Seq<Vec<To<E>>>, m2: Seq<Vec<To<E>>>, k: int)
    requires
        forall|i: int| 0 <= i < k ==> (#[trigger] m1[i])@.len() == m2[i]@.len(),
    ensures
        total_edges(m1, k) == total_edges(m2, k),
    decreases k,
{
    if k > 0 {
        lemma_total_congruent(m1, m2, k - 1);
    }
}

/// Growing one row by `d` edges grows every total that covers it by `d`.
proof fn lemma_total_update<E>(m: Seq<Vec<To<E>>>, m2: Seq<Vec<To<E>>>, u: int, d: int, k: int)
    requires
        0 <= u < m.len(),
        m2.len() == m.len(),
        m2[u]@.len() == m[u]@.len() + d,
        forall|i: int| 0 <= i < m.len() && i != u ==> (#[trigger] m2[i])@.len() == m[i]@.len(),
        k <= m.len(),
    ensures
        total_edges(m2, k) == total_edges(m, k) + (if u < k {
            d
        } else {
            0
        }),
    decreases k,
{
    if k > 0 {
        lemma_total_update(m, m2, u, d, k - 1);
    }
}

/// A graph as a vector of per-vertex out-neighbour lists.
pub struct Adjacency<E = ()> {
    pub(crate) matrix: Vec<Vec<To<E>>>,
    pub(crate) n_edges: usize,
}

impl<E> Adjacency<E> {
    pub closed spec fn spec_matrix(&self) -> Seq<Vec<To<E>>> {
        self.matrix@
    }

    pub closed spec fn spec_n_edges(&self) -> int {
        self.n_edges as int
    }

    /// The out-neighbour ids of vertex `v`, in insertion order.
    pub open spec fn spec_row(&self, v: int) -> Seq<usize> {
        self.spec_matrix()[v]@.map_values(|t: To<E>| t.to)
    }

    /// The rows of the graph, in vertex order.
    pub open spec fn spec_rows(&self) -> Seq<Seq<usize>> {
        Seq::new(self.spec_matrix().len(), |v: int| self.spec_row(v))
    }

    /// The edge counter matches the rows, and every target is a vertex.
    pub open spec fn wf(&self) -> bool {
        &&& self.spec_n_edges() == total_edges(self.spec_matrix(), self.spec_matrix().len() as int)
        &&& forall|v: int, k: int|
            0 <= v < self.spec_matrix().len() && 0 <= k < self.spec_matrix()[v]@.len()
                ==> (#[trigger] self.spec_matrix()[v]@[k]).to < self.spec_matrix().len()
    }

    /// An empty graph with no vertices.
    pub fn new() -> (g: Self)
        ensures
            g.wf(),
            g.spec_matrix().len() == 0,
            g.spec_n_edges() == 0,
    {
        Self { matrix: Vec::new(), n_edges: 0 }
    }

    /// An empty graph with room reserved for `n` vertices.
    pub fn with_capacity(n: usize) -> (g: Self)
        ensures
            g.wf(),
            g.spec_matrix().len() == 0,
            g.spec_n_edges() == 0,
    {
        Self { matrix: Vec::with_capacity(n), n_edges: 0 }
    }

    /// The number of vertices.
    pub fn vertices(&self) -> (r: usize)
        ensures
            r == self.spec_matrix().len(),
    {
        self.matrix.len()
    }

    /// The number of directed edges.
    pub fn edges(&self) -> (r: usize)
        ensures
            r == self.spec_n_edges(),
    {
        self.n_edges
    }

    /// The out-neighbours of `node`, with weights.
    pub fn neighbours(&self, node: usize) -> (r: &Vec<To<E>>)
        requires
            node < self.spec_matrix().len(),
        ensures
            r == self.spec_matrix()[node as int],
    {
        &self.matrix[node]
    }

    /// The out-neighbour ids of every vertex, in vertex order.
    pub fn neighbourhoods(&self) -> (r: Vec<Vec<usize>>)
        ensures
            r@.len() == self.spec_matrix().len(),
            forall|v: int| 0 <= v < r@.len() ==> (#[trigger] r@[v])@ == self.spec_row(v),
    {
        let n = self.matrix.len();
        let mut r: Vec<Vec<usize>> = Vec::new();
        let mut v: usize = 0;
        while v < n
            invariant
                n == self.spec_matrix().len(),
                v <= n,
                r@.len() == v,
                forall|w: int| 0 <= w < v ==> (#[trigger] r@[w])@ == self.spec_row(w),
            decreases n - v,
        {
            let row = &self.matrix[v];
            let len = row.len();
            let mut ids: Vec<usize> = Vec::new();
            let mut k: usize = 0;
            while k < len
                invariant
                    len == row@.len(),
                    k <= len,
                    ids@ == row@.subrange(0, k as int).map_values(|t: To<E>| t.to),
                decreases len - k,
            {
                ids.push(row[k].to);
                proof {
                    assert(ids@ =~= row@.subrange(0, k + 1).map_values(|t: To<E>| t.to));
                }
                k = k + 1;
            }
            proof {
                assert(row@.subrange(0, len as int) =~= row@);
            }
            r.push(ids);
            v = v + 1;
        }
        r
    }

    /// Whether an edge `from -> to` is present.
    pub fn has_link(&self, from: usize, to: usize) -> (r: bool)
        requires
            from < self.spec_matrix().len(),
        ensures
            r == exists|k: int|
                0 <= k < self.spec_row(from as int).len() && #[trigger] self.spec_row(
                    from as int,
                )[k] == to,
    {
        let row = &self.matrix[from];
        let len = row.len();
        let mut k: usize = 0;
        while k < len
            invariant
                from < self.spec_matrix().len(),
                (*row)@ == self.spec_matrix()[from as int]@,
                len == row@.len(),
                k <= len,
                forall|i: int| 0 <= i < k ==> (#[trigger] row@[i]).to != to,
            decreases len - k,
        {
            if row[k].to == to {
                proof {
                    assert((*row)@ == self.spec_matrix()[from as int]@);
                    assert(self.spec_row(from as int)[k as int] == (*row)@[k as int].to);
                }
                return true;
            }
            k = k + 1;
        }
        proof {
            assert forall|i: int| 0 <= i < self.spec_row(from as int).len() implies #[trigger]
            self.spec_row(from as int)[i] != to by {
                assert(row@[i].to != to);
            }
        }
        false
    }

    /// Grow the vertex set so that `from` is a valid vertex.
    pub fn add_vertex(&mut self, from: usize)
        requires
            old(self).wf(),
            from < usize::MAX,
        ensures
            final(self).wf(),
            old(self).spec_matrix().len() >= from + 1 ==> final(self).spec_matrix() == old(
                self,
            ).spec_matrix(),
            old(self).spec_matrix().len() < from + 1 ==> final(self).spec_matrix().len() == from
                + 1,
            final(self).spec_matrix().len() >= old(self).spec_matrix().len(),
            forall|v: int|
                old(self).spec_matrix().len() <= v < final(self).spec_matrix().len()
                    ==> (#[trigger] final(self).spec_matrix()[v])@.len() == 0,
            final(self).spec_n_edges() == old(self).spec_n_edges(),
            forall|v: int|
                0 <= v < old(self).spec_matrix().len() ==> final(self).spec_matrix()[v] == old(
                    self,
                ).spec_matrix()[v],
    {
        let ghost m0 = self.matrix@;
        let ghost e0 = self.n_edges;
        while self.matrix.len() < from + 1
            invariant
                self.n_edges == e0,
                self.matrix@.len() >= m0.len(),
                m0.len() >= from + 1 ==> self.matrix@.len() == m0.len(),
                m0.len() < from + 1 ==> self.matrix@.len() <= from + 1,
                forall|v: int| 0 <= v < m0.len() ==> self.matrix@[v] == m0[v],
                forall|v: int| m0.len() <= v < self.matrix@.len() ==> self.matrix@[v]@.len() == 0,
                from < usize::MAX,
            decreases from + 1 - self.matrix@.len(),
        {
            self.matrix.push(Vec::new());
        }
        proof {
            lemma_total_congruent(self.matrix@, m0, m0.len() as int);
            lemma_total_tail_empty(self.matrix@, m0.len() as int, self.matrix@.len() as int);
            if m0.len() >= from + 1 {
                assert(self.matrix@ =~= m0);
            }
            assert forall|v: int, k: int|
                0 <= v < self.spec_matrix().len() && 0 <= k < self.spec_matrix()[v]@.len() implies (
            #[trigger] self.spec_matrix()[v]@[k]).to < self.spec_matrix().len() by {
                if v < m0.len() {
                    assert(self.matrix@[v] == m0[v]);
                    assert(m0[v]@[k].to < m0.len());
                }
            }
        }
    }

    /// Append an out-edge `from -> to`.
    pub fn add_weighed_link(&mut self, from: usize, to: usize, weight: E) -> (r: bool)
        requires
            old(self).wf(),
            from < old(self).spec_matrix().len(),
            to < old(self).spec_matrix().len(),
            old(self).spec_n_edges() < usize::MAX,
        ensures
            r == true,
            final(self).wf(),
            final(self).spec_matrix().len() == old(self).spec_matrix().len(),
            final(self).spec_n_edges() == old(self).spec_n_edges() + 1,
            final(self).spec_matrix()[from as int]@ == old(self).spec_matrix()[from as int]@.push(
                (To { to, weight }),
            ),
            final(self).spec_row(from as int) == old(self).spec_row(from as int).push(to),
            forall|v: int|
                0 <= v < old(self).spec_matrix().len() && v != from
                    ==> final(self).spec_matrix()[v] == old(self).spec_matrix()[v],
            forall|v: int|
                0 <= v < old(self).spec_matrix().len() && v != from ==> final(self).spec_row(v)
                    == old(self).spec_row(v),
    {
        let ghost m0 = self.matrix@;
        self.matrix[from].push(To { to, weight });
        self.n_edges = self.n_edges + 1;
        proof {
            lemma_total_update(m0, self.matrix@, from as int, 1, m0.len() as int);
            assert(self.spec_row(from as int) =~= old(self).spec_row(from as int).push(to));
        }
        true
    }
}

/// Rows past `k0` that are empty contribute nothing to the total.
proof fn lemma_total_tail_empty<E>(m: Seq<Vec<To<E>>>, k0: int, k: int)
    requires
        0 <= k0 <= k <= m.len(),
        forall|v: int| k0 <= v < m.len() ==> (#[trigger] m[v])@.len() == 0,
    ensures
        total_edges(m, k) == total_edges(m, k0),
    decreases k,
{
    if k > k0 {
        lemma_total_tail_empty(m, k0, k - 1);
    }
}

impl FromEdges for Adjacency<()> {
    open spec fn spec_wf(&self) -> bool {
        self.wf()
    }

    open spec fn spec_vertices(&self) -> usize {
        self.spec_matrix().len() as usize
    }

    open spec fn spec_edge_count(&self) -> int {
        self.spec_n_edges()
    }

    open spec fn spec_edge_pairs(&self) -> Seq<(usize, usize)> {
        rows_pairs(self.spec_rows(), self.spec_matrix().len() as int)
    }

    open spec fn spec_built_from(&self, n: usize, list: Seq<(usize, usize)>) -> bool {
        &&& self.spec_matrix().len() == n
        &&& rows_are_filters(self.spec_rows(), list)
    }

    fn from_edges(n: usize, list: Vec<(usize, usize)>) -> (g: Self) {
        let mut g = Adjacency::<()>::with_capacity(n);
        if n > 0 {
            g.add_vertex(n - 1);
        }
        proof {
            assert(g.spec_matrix().len() == n);
            assert forall|v: int| 0 <= v < n implies #[trigger] g.spec_row(v) == source_filtered(
                list@.subrange(0, 0),
                v,
            ) by {
                reveal(Seq::filter);
                assert(g.spec_row(v) =~= Seq::<usize>::empty());
                assert(source_filtered(list@.subrange(0, 0), v) =~= Seq::<usize>::empty());
            }
        }
        let len = list.len();
        let mut k: usize = 0;
        while k < len
            invariant
                k <= len,
                len == list@.len(),
                pairs_wf(list@, n),
                g.wf(),
                g.spec_matrix().len() == n,
                g.spec_n_edges() == k,
                forall|v: int|
                    0 <= v < n ==> #[trigger] g.spec_row(v) == source_filtered(
                        list@.subrange(0, k as int),
                        v,
                    ),
            decreases len - k,
        {
            let (u, v) = list[k];
            g.add_weighed_link(u, v, ());
            proof {
                let e = list@[k as int];
                assert(list@.subrange(0, k + 1) =~= list@.subrange(0, k as int).push(e));
                assert forall|w: int| 0 <= w < n implies #[trigger] g.spec_row(w)
                    == source_filtered(list@.subrange(0, k + 1), w) by {
                    lemma_source_push(list@.subrange(0, k as int), e, w);
                }
            }
            k = k + 1;
        }
        proof {
            assert(list@.subrange(0, len as int) =~= list@);
            assert(rows_are_filters(g.spec_rows(), list@));
            lemma_rows_filter_multiset(g.spec_rows(), list@);
        }
        g
    }

    fn vertices(&self) -> (r: usize) {
        self.matrix.len()
    }

    fn edges(&self) -> (r: usize) {
        self.n_edges
    }
}

} // verus!
