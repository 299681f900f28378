//! Graph views: an edge list, a compressed-sparse-row view, and an
//! adjacency list, all semantically equivalent. A graph is `n` vertices
//! numbered `0..n` and a multiset of directed edges `(u, v)` with both
//! endpoints below `n`.

pub mod csr;
pub mod edge_list;
pub mod matrix;
pub mod test_graphs;

use vstd::prelude::*;

verus! {

/// A directed edge with an attached weight payload (never read by the
/// algorithms).
pub type WEdge<E> = (usize, usize, E);

/// An unweighted directed edge.
pub type Edge = WEdge<()>;

/// Every endpoint of every edge lies below `n`.
pub open spec fn edges_wf<E>(edges: Seq<WEdge<E>>, n: int) -> bool {
    forall|k: int| 0 <= k < edges.len() ==> (#[trigger] edges[k]).0 < n && edges[k].1 < n
}

/// Every pair of an unweighted pair sequence lies below `n`.
pub open spec fn pairs_wf(pairs: Seq<(usize, usize)>, n: usize) -> bool {
    forall|k: int| 0 <= k < pairs.len() ==> (#[trigger] pairs[k]).0 < n && pairs[k].1 < n
}

/// Construction of a graph view from an unweighted edge list. Whatever the
/// representation: the vertex count is the `n` that was passed, the edge
/// count is the length of the list, the stored content is pinned exactly
/// by this representation's `spec_built_from`, and the multiset of stored
/// edge pairs equals the input list's.
pub trait FromEdges: Sized {
    spec fn spec_wf(&self) -> bool;

    spec fn spec_vertices(&self) -> usize;

    spec fn spec_edge_count(&self) -> int;

    /// The stored edges as pairs, in this representation's own order.
    spec fn spec_edge_pairs(&self) -> Seq<(usize, usize)>;

    /// Exactly what this representation stores when built from `list`
    /// over `n` vertices.
    spec fn spec_built_from(&self, n: usize, list: Seq<(usize, usize)>) -> bool;

    fn from_edges(n: usize, list: Vec<(usize, usize)>) -> (g: Self)
        requires
            pairs_wf(list@, n),
            n < usize::MAX,
        ensures
            g.spec_wf(),
            g.spec_vertices() == n,
            g.spec_edge_count() == list@.len(),
            g.spec_built_from(n, list@),
            g.spec_edge_pairs().to_multiset() == list@.to_multiset(),
    ;

    /// The number of vertices; fixed at construction.
    fn vertices(&self) -> (r: usize)
        requires
            self.spec_wf(),
        ensures
            r == self.spec_vertices(),
    ;

    /// The number of directed edges.
    fn edges(&self) -> (r: usize)
        requires
            self.spec_wf(),
        ensures
            r == self.spec_edge_count(),
    ;
}

/// An out-neighbour reference: the target vertex and the edge's weight.
#[derive(Clone, PartialEq, Eq, Debug)]
pub struct To<E> {
    pub to: usize,
    pub weight: E,
}

/// Filtering a sequence extended by one element keeps the old filtered
/// prefix and appends the element exactly when it matches.
pub proof fn lemma_filter_push<A>(s: Seq<A>, pred: spec_fn(A) -> bool, e: A)
    ensures
        pred(e) ==> s.push(e).filter(pred) == s.filter(pred).push(e),
        !pred(e) ==> s.push(e).filter(pred) == s.filter(pred),
{
    reveal(Seq::filter);
    assert(s.push(e).drop_last() =~= s);
    assert(s.push(e).last() == e);
}

/// One row's targets turned back into edges out of vertex `v`.
pub open spec fn row_pairs(row: Seq<usize>, v: usize) -> Seq<(usize, usize)> {
    row.map_values(|t: usize| (v, t))
}

/// The targets of the list's edges out of vertex `v`, in list order.
pub open spec fn source_filtered(list: Seq<(usize, usize)>, v: int) -> Seq<usize> {
    list.filter(|p: (usize, usize)| p.0 as int == v).map_values(|p: (usize, usize)| p.1)
}

/// Appending one edge extends exactly its source vertex's filtered row.
pub proof fn lemma_source_push(l0: Seq<(usize, usize)>, e: (usize, usize), v: int)
    ensures
        e.0 as int == v ==> source_filtered(l0.push(e), v) == source_filtered(l0, v).push(e.1),
        e.0 as int != v ==> source_filtered(l0.push(e), v) == source_filtered(l0, v),
{
    reveal(Seq::filter);
    assert(l0.push(e).drop_last() =~= l0);
    assert(l0.push(e).last() == e);
    if e.0 as int == v {
        assert(source_filtered(l0.push(e), v) =~= source_filtered(l0, v).push(e.1));
    }
}

/// The edges of the first `k` rows, row by row.
pub open spec fn rows_pairs(rows: Seq<Seq<usize>>, k: int) -> Seq<(usize, usize)>
    decreases k,
{
    if k <= 0 {
        Seq::empty()
    } else {
        rows_pairs(rows, k - 1) + row_pairs(rows[k - 1], (k - 1) as usize)
    }
}

/// Each row holds exactly the list's edges out of that vertex, in
/// insertion order.
pub open spec fn rows_are_filters(rows: Seq<Seq<usize>>, list: Seq<(usize, usize)>) -> bool {
    forall|v: int| 0 <= v < rows.len() ==> #[trigger] rows[v] == source_filtered(list, v)
}

/// Rows that are all empty contribute no edges.
proof fn lemma_rows_pairs_empty(rows: Seq<Seq<usize>>, k: int)
    requires
        forall|v: int| 0 <= v < k ==> (#[trigger] rows[v]).len() == 0,
    ensures
        rows_pairs(rows, k) == Seq::<(usize, usize)>::empty(),
    decreases k,
{
    if k > 0 {
        lemma_rows_pairs_empty(rows, k - 1);
        assert(rows_pairs(rows, k) =~= Seq::<(usize, usize)>::empty());
    }
}

/// Appending one target to one row appends exactly one pair to the
/// row-by-row edge multiset.
proof fn lemma_rows_pairs_one_push(
    rows0: Seq<Seq<usize>>,
    rows: Seq<Seq<usize>>,
    u: int,
    t: usize,
    k: int,
)
    requires
        rows.len() == rows0.len(),
        0 <= u < rows.len(),
        rows[u] == rows0[u].push(t),
        forall|v: int| 0 <= v < rows.len() && v != u ==> #[trigger] rows[v] == rows0[v],
    ensures
        k <= u ==> rows_pairs(rows, k) == rows_pairs(rows0, k),
        u < k <= rows.len() ==> rows_pairs(rows, k).to_multiset() == rows_pairs(
            rows0,
            k,
        ).to_multiset().insert((u as usize, t)),
    decreases k,
{
    broadcast use vstd::seq_lib::group_to_multiset_ensures;
    broadcast use vstd::seq_lib::lemma_multiset_commutative;
    broadcast use vstd::multiset::group_multiset_axioms;
    broadcast use vstd::multiset::group_multiset_properties;

    if k <= 0 {
    } else {
        lemma_rows_pairs_one_push(rows0, rows, u, t, k - 1);
        if k <= u {
            assert(rows_pairs(rows, k) =~= rows_pairs(rows0, k));
        } else if k == u + 1 {
            let a = row_pairs(rows[u], u as usize);
            let b = row_pairs(rows0[u], u as usize).push((u as usize, t));
            assert(a.len() == b.len());
            assert forall|i: int| 0 <= i < a.len() implies a[i] == b[i] by {
                if i < rows0[u].len() {
                    assert(rows[u][i] == rows0[u][i]);
                } else {
                    assert(rows[u][i] == t);
                }
            }
            assert(a =~= b);
            assert(rows_pairs(rows, k) =~= (rows_pairs(rows0, k - 1) + row_pairs(
                rows0[u],
                u as usize,
            )).push((u as usize, t)));
            assert(rows_pairs(rows, k).to_multiset() =~= rows_pairs(rows0, k).to_multiset().insert(
                (u as usize, t),
            ));
        } else if k <= rows.len() {
            assert(rows[k - 1] == rows0[k - 1]);
            assert(rows_pairs(rows, k).to_multiset() =~= rows_pairs(rows0, k).to_multiset().insert(
                (u as usize, t),
            ));
        }
    }
}

/// When every row is the list's edges out of its vertex, the rows hold
/// the list's edge multiset exactly.
pub proof fn lemma_rows_filter_multiset(rows: Seq<Seq<usize>>, list: Seq<(usize, usize)>)
    requires
        rows_are_filters(rows, list),
        forall|k: int| 0 <= k < list.len() ==> (#[trigger] list[k]).0 < rows.len(),
    ensures
        rows_pairs(rows, rows.len() as int).to_multiset() == list.to_multiset(),
    decreases list.len(),
{
    broadcast use vstd::seq_lib::group_to_multiset_ensures;

    if list.len() == 0 {
        reveal(Seq::filter);
        assert forall|v: int| 0 <= v < rows.len() implies (#[trigger] rows[v]).len() == 0 by {
            assert(source_filtered(list, v).len() == 0);
        }
        lemma_rows_pairs_empty(rows, rows.len() as int);
        assert(list =~= Seq::<(usize, usize)>::empty());
        assert(rows_pairs(rows, rows.len() as int).to_multiset() =~= list.to_multiset());
    } else {
        let e = list.last();
        let l0 = list.drop_last();
        let rows0 = Seq::new(rows.len(), |v: int| source_filtered(l0, v));
        assert(l0.push(e) =~= list);
        assert forall|v: int| 0 <= v < rows.len() && v != e.0 as int implies #[trigger] rows[v]
            == rows0[v] by {
            lemma_source_push(l0, e, v);
        }
        assert(rows[e.0 as int] == rows0[e.0 as int].push(e.1)) by {
            lemma_source_push(l0, e, e.0 as int);
        }
        lemma_rows_filter_multiset(rows0, l0);
        lemma_rows_pairs_one_push(rows0, rows, e.0 as int, e.1, rows.len() as int);
        assert(list.to_multiset() == l0.to_multiset().insert(e));
    }
}

} // verus!
