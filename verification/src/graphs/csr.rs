//! CSR (compressed sparse row): adjacency stored as one flat neighbour
//! array plus a row-boundary index.
//!
//! `row_indexes` has one entry per vertex plus a final sentinel;
//! `columns[row_indexes[v] .. row_indexes[v + 1]]` holds vertex `v`'s
//! out-neighbours in insertion order.

use vstd::prelude::*;
use crate::graphs::{
    lemma_rows_filter_multiset, lemma_source_push, pairs_wf, rows_are_filters, rows_pairs,
    source_filtered, FromEdges, To,
};

verus! {

/// A graph in compressed-sparse-row form.
pub struct CSR<E = ()> {
    pub(crate) columns: Vec<To<E>>,
    pub(crate) row_indexes: Vec<usize>,
}

/// The targets of a row slice.
pub open spec fn row_targets<E>(cols: Seq<To<E>>, lo: int, hi: int) -> Seq<usize> {
    cols.subrange(lo, hi).map_values(|t: To<E>| t.to)
}

impl<E> CSR<E> {
    pub closed spec fn spec_cols(&self) -> Seq<To<E>> {
        self.columns@
    }

    pub closed spec fn spec_bounds(&self) -> Seq<usize> {
        self.row_indexes@
    }

    /// The out-neighbours of vertex `v`, in insertion order.
    pub open spec fn spec_row(&self, v: int) -> Seq<usize> {
        row_targets(
            self.spec_cols(),
            self.spec_bounds()[v] as int,
            self.spec_bounds()[v + 1] as int,
        )
    }

    /// The rows of the graph, in vertex order.
    pub open spec fn spec_rows(&self) -> Seq<Seq<usize>> {
        Seq::new((self.spec_bounds().len() - 1) as nat, |v: int| self.spec_row(v))
    }

    /// Row boundaries are monotone and end at the column count; every
    /// stored target is a vertex.
    pub open spec fn wf(&self) -> bool {
        &&& self.spec_bounds().len() >= 1
        &&& self.spec_bounds()[0] == 0
        &&& forall|i: int, j: int|
            0 <= i <= j < self.spec_bounds().len() ==> #[trigger] self.spec_bounds()[i]
                <= #[trigger] self.spec_bounds()[j]
        &&& self.spec_bounds().last() == self.spec_cols().len()
        &&& forall|k: int|
            0 <= k < self.spec_cols().len() ==> (#[trigger] self.spec_cols()[k]).to
                < self.spec_bounds().len() - 1
    }

    /// Append an out-edge `from -> to` at the end of `from`'s row.
    pub fn add_weighed_link(&mut self, from: usize, to: usize, weight: E) -> (r: bool)
        requires
            old(self).wf(),
            from < old(self).spec_bounds().len() - 1,
            to < old(self).spec_bounds().len() - 1,
            old(self).spec_cols().len() < usize::MAX,
        ensures
            r == true,
            final(self).wf(),
            final(self).spec_bounds().len() == old(self).spec_bounds().len(),
            final(self).spec_cols().len() == old(self).spec_cols().len() + 1,
            final(self).spec_row(from as int) == old(self).spec_row(from as int).push(to),
            forall|w: int|
                0 <= w < old(self).spec_bounds().len() - 1 && w != from
                    ==> final(self).spec_row(w) == old(self).spec_row(w),
    {
        let ghost old_cols = self.columns@;
        let ghost old_rows = self.row_indexes@;
        proof {
            assert(old_rows.len() == vstd::std_specs::vec::spec_vec_len(&self.row_indexes));
            assert forall|i: int| 0 <= i < old_rows.len() implies old_rows[i]
                <= old_cols.len() by {
                assert(old_rows[i] <= old_rows[old_rows.len() - 1]);
            }
        }
        let pos = self.row_indexes[from + 1];
        self.columns.insert(pos, To { to, weight });
        let n_rows = self.row_indexes.len();
        let mut w: usize = from + 1;
        while w < n_rows
            invariant
                self.columns@ == old_cols.insert(
                    old_rows[from as int + 1] as int,
                    (To { to, weight }),
                ),
                from + 1 <= w <= n_rows,
                n_rows == self.row_indexes@.len(),
                old_rows.len() == n_rows,
                forall|i: int| 0 <= i <= from ==> self.row_indexes@[i] == old_rows[i],
                forall|i: int|
                    from < i < w ==> self.row_indexes@[i] == old_rows[i] + 1,
                forall|i: int| w <= i < n_rows ==> self.row_indexes@[i] == old_rows[i],
                forall|i: int| 0 <= i < n_rows ==> old_rows[i] <= old_cols.len(),
                old_cols.len() < usize::MAX,
            decreases n_rows - w,
        {
            let v = self.row_indexes[w];
            proof {
                assert(old_rows[w as int] <= old_cols.len() < usize::MAX);
            }
            self.row_indexes.set(w, v + 1);
            w = w + 1;
        }
        proof {
            let new_cols = self.columns@;
            let new_rows = self.row_indexes@;
            let p = old_rows[from as int + 1] as int;
            assert(new_cols == old_cols.insert(p, To { to, weight }));
            old_cols.insert_ensures(p, To { to, weight });
            assert forall|i: int, j: int| 0 <= i <= j < new_rows.len() implies new_rows[i]
                <= new_rows[j] by {
                assert(old_rows[i] <= old_rows[j]);
            }
            assert forall|k: int| 0 <= k < new_cols.len() implies (#[trigger] new_cols[k]).to
                < new_rows.len() - 1 by {
                if k < p {
                    assert(new_cols[k] == old_cols[k]);
                } else if k > p {
                    assert(new_cols[k] == old_cols[k - 1]);
                }
            }
            // each row slice is untouched, extended by one, or shifted whole
            assert forall|v: int| 0 <= v < n_rows - 1 implies #[trigger] self.spec_row(v) == (
            if v == from {
                row_targets(old_cols, old_rows[v] as int, old_rows[v + 1] as int).push(to)
            } else {
                row_targets(old_cols, old_rows[v] as int, old_rows[v + 1] as int)
            }) by {
                let lo = old_rows[v] as int;
                let hi = old_rows[v + 1] as int;
                if v < from {
                    assert(hi <= p);
                    assert(new_cols.subrange(lo, hi) =~= old_cols.subrange(lo, hi));
                } else if v == from {
                    assert(new_cols.subrange(lo, hi + 1) =~= old_cols.subrange(lo, hi).push(
                        To { to, weight },
                    ));
                    assert(self.spec_row(v) =~= row_targets(old_cols, lo, hi).push(to));
                } else {
                    assert(p <= lo);
                    assert(new_cols.subrange(lo + 1, hi + 1) =~= old_cols.subrange(lo, hi));
                }
            }
            assert(self.wf());
        }
        true
    }

    /// The out-neighbours of vertex `i`, in order.
    pub fn neighbours(&self, i: usize) -> (r: Vec<usize>)
        requires
            self.wf(),
            i < self.spec_bounds().len() - 1,
        ensures
            r@ == self.spec_row(i as int),
    {
        proof {
            assert(self.spec_bounds().len() == vstd::std_specs::vec::spec_vec_len(
                &self.row_indexes,
            ));
            assert(self.spec_bounds()[i as int + 1] <= self.spec_bounds()[
                self.spec_bounds().len() - 1
            ]);
        }
        let from = self.row_indexes[i];
        let to = self.row_indexes[i + 1];
        let mut r: Vec<usize> = Vec::new();
        let mut k: usize = from;
        while k < to
            invariant
                self.wf(),
                i < self.spec_bounds().len() - 1,
                from == self.spec_bounds()[i as int],
                to == self.spec_bounds()[i as int + 1],
                from <= k <= to,
                to <= self.spec_cols().len(),
                r@ == row_targets(self.spec_cols(), from as int, k as int),
            decreases to - k,
        {
            r.push(self.columns[k].to);
            proof {
                assert(r@ =~= row_targets(self.spec_cols(), from as int, k + 1));
            }
            k = k + 1;
        }
        proof {
            assert(r@ =~= self.spec_row(i as int));
        }
        r
    }

    /// The neighbour lists of every vertex, in vertex order.
    pub fn neighbourhoods(&self) -> (r: Vec<Vec<usize>>)
        requires
            self.wf(),
        ensures
            r@.len() == self.spec_bounds().len() - 1,
            forall|v: int| 0 <= v < r@.len() ==> (#[trigger] r@[v])@ == self.spec_row(v),
    {
        let n = self.row_indexes.len() - 1;
        let mut r: Vec<Vec<usize>> = Vec::new();
        let mut v: usize = 0;
        while v < n
            invariant
                self.wf(),
                n == self.spec_bounds().len() - 1,
                v <= n,
                r@.len() == v,
                forall|w: int| 0 <= w < v ==> (#[trigger] r@[w])@ == self.spec_row(w),
            decreases n - v,
        {
            r.push(self.neighbours(v));
            v = v + 1;
        }
        r
    }

    /// The vertices, in order.
    pub fn nodes(&self) -> (r: Vec<usize>)
        requires
            self.wf(),
        ensures
            r@.len() == self.spec_bounds().len() - 1,
            forall|v: int| 0 <= v < r@.len() ==> r@[v] == v,
    {
        let n = self.row_indexes.len() - 1;
        let mut r: Vec<usize> = Vec::new();
        let mut v: usize = 0;
        while v < n
            invariant
                v <= n,
                r@.len() == v,
                forall|w: int| 0 <= w < v ==> r@[w] == w,
            decreases n - v,
        {
            r.push(v);
            v = v + 1;
        }
        r
    }
}

impl FromEdges for CSR<()> {
    open spec fn spec_wf(&self) -> bool {
        self.wf()
    }

    open spec fn spec_vertices(&self) -> usize {
        (self.spec_bounds().len() - 1) as usize
    }

    open spec fn spec_edge_count(&self) -> int {
        self.spec_cols().len() as int
    }

    open spec fn spec_edge_pairs(&self) -> Seq<(usize, usize)> {
        rows_pairs(self.spec_rows(), self.spec_bounds().len() - 1)
    }

    open spec fn spec_built_from(&self, n: usize, list: Seq<(usize, usize)>) -> bool {
        &&& self.spec_bounds().len() == n + 1
        &&& rows_are_filters(self.spec_rows(), list)
    }

    fn from_edges(n: usize, list: Vec<(usize, usize)>) -> (g: Self) {
        let mut g = CSR { columns: Vec::new(), row_indexes: vec![0usize; n + 1] };
        proof {
            assert(g.wf());
            assert forall|v: int| 0 <= v < n implies #[trigger] g.spec_row(v) == source_filtered(
                list@.subrange(0, 0),
                v,
            ) by {
                reveal(Seq::filter);
                assert(g.spec_row(v) =~= Seq::<usize>::empty());
                assert(source_filtered(list@.subrange(0, 0), v) =~= Seq::<usize>::empty());
            }
        }
        let len = list.len();
        let mut k: usize = 0;
        while k < len
            invariant
                k <= len,
                len == list@.len(),
                pairs_wf(list@, n),
                g.wf(),
                g.spec_bounds().len() == n + 1,
                g.spec_cols().len() == k,
                forall|v: int|
                    0 <= v < n ==> #[trigger] g.spec_row(v) == source_filtered(
                        list@.subrange(0, k as int),
                        v,
                    ),
            decreases len - k,
        {
            let ghost pre_rows = Seq::new(n as nat, |v: int| g.spec_row(v));
            let (u, v) = list[k];
            g.add_weighed_link(u, v, ());
            proof {
                let e = list@[k as int];
                assert(list@.subrange(0, k + 1) =~= list@.subrange(0, k as int).push(e));
                assert forall|w: int| 0 <= w < n implies #[trigger] g.spec_row(w)
                    == source_filtered(list@.subrange(0, k + 1), w) by {
                    lemma_source_push(list@.subrange(0, k as int), e, w);
                }
            }
            k = k + 1;
        }
        proof {
            assert(list@.subrange(0, len as int) =~= list@);
            assert(rows_are_filters(g.spec_rows(), list@));
            lemma_rows_filter_multiset(g.spec_rows(), list@);
        }
        g
    }

    fn vertices(&self) -> (r: usize) {
        self.row_indexes.len() - 1
    }

    fn edges(&self) -> (r: usize) {
        self.columns.len()
    }
}

} // verus!
