//! A graph stored as a flat list of edges, in insertion order. This is the
//! representation the Karger-Stein contraction works on: it permutes the
//! edge array in place.

use vstd::prelude::*;
use crate::graphs::{edges_wf, pairs_wf, FromEdges, WEdge};

verus! {

/// A vertex count and an ordered list of weighted edges.
pub struct EdgeList<E = ()> {
    pub edges: Vec<WEdge<E>>,
    pub n_vertices: usize,
}

impl<E> EdgeList<E> {
    /// All edges, with weights, in order.
    pub open spec fn spec_edges(&self) -> Seq<WEdge<E>> {
        self.edges@
    }

    pub open spec fn spec_n_vertices(&self) -> usize {
        self.n_vertices
    }

    /// Every edge endpoint lies below the vertex count.
    pub open spec fn wf(&self) -> bool {
        edges_wf(self.spec_edges(), self.spec_n_vertices() as int)
    }

    /// The stored edges, in order.
    pub fn as_edges(&self) -> (r: &Vec<WEdge<E>>)
        ensures
            r@ == self.spec_edges(),
    {
        &self.edges
    }

    /// The stored edges, by value.
    pub fn into_edges(self) -> (r: Vec<WEdge<E>>)
        ensures
            r@ == self.spec_edges(),
    {
        self.edges
    }

    /// Append a weighted edge.
    pub fn add_link_weights(&mut self, from: usize, to: usize, e: E) -> (r: bool)
        requires
            from < old(self).spec_n_vertices(),
            to < old(self).spec_n_vertices(),
        ensures
            r == true,
            final(self).spec_edges() == old(self).spec_edges().push((from, to, e)),
            final(self).spec_n_vertices() == old(self).spec_n_vertices(),
            old(self).wf() ==> final(self).wf(),
    {
        self.edges.push((from, to, e));
        true
    }
}

impl EdgeList<()> {
    /// Append an unweighted edge.
    pub fn add_link(&mut self, from: usize, to: usize) -> (r: bool)
        requires
            from < old(self).spec_n_vertices(),
            to < old(self).spec_n_vertices(),
        ensures
            r == true,
            final(self).spec_edges() == old(self).spec_edges().push((from, to, ())),
            final(self).spec_n_vertices() == old(self).spec_n_vertices(),
            old(self).wf() ==> final(self).wf(),
    {
        self.add_link_weights(from, to, ())
    }
}

impl FromEdges for EdgeList<()> {
    open spec fn spec_wf(&self) -> bool {
        self.wf()
    }

    open spec fn spec_vertices(&self) -> usize {
        self.spec_n_vertices()
    }

    open spec fn spec_edge_count(&self) -> int {
        self.spec_edges().len() as int
    }

    open spec fn spec_edge_pairs(&self) -> Seq<(usize, usize)> {
        self.spec_edges().map_values(|e: WEdge<()>| (e.0, e.1))
    }

    open spec fn spec_built_from(&self, n: usize, list: Seq<(usize, usize)>) -> bool {
        &&& self.spec_n_vertices() == n
        &&& self.spec_edges() == list.map_values(|p: (usize, usize)| (p.0, p.1, ()))
    }

    fn from_edges(n: usize, list: Vec<(usize, usize)>) -> (g: Self) {
        let mut edges: Vec<WEdge<()>> = Vec::new();
        let len = list.len();
        let mut k: usize = 0;
        while k < len
            invariant
                k <= len,
                len == list@.len(),
                pairs_wf(list@, n),
                edges@.len() == k,
                forall|i: int|
                    0 <= i < k ==> (#[trigger] edges@[i]) == (list@[i].0, list@[i].1, ()),
            decreases len - k,
        {
            let (u, v) = list[k];
            edges.push((u, v, ()));
            k = k + 1;
        }
        let g = EdgeList { edges, n_vertices: n };
        proof {
            assert(g.wf());
            assert(g.spec_edges() =~= list@.map_values(|p: (usize, usize)| (p.0, p.1, ())));
            assert(g.spec_edge_pairs() =~= list@);
        }
        g
    }

    fn vertices(&self) -> (r: usize) {
        self.n_vertices
    }

    fn edges(&self) -> (r: usize) {
        self.edges.len()
    }
}

} // verus!
