//! Fixed test graphs.

use vstd::prelude::*;
use crate::graphs::FromEdges;

verus! {

/// The edges of the fixed test graph: two directed 5-cliques, `{0..4}`
/// and `{5..9}`, followed by the three bridges `(2,6)`, `(4,5)`, `(3,7)`
/// that form its minimum cut.
pub open spec fn graph_one_edges() -> Seq<(usize, usize)> {
    seq![
        (0usize, 1usize),
        (0usize, 2usize),
        (0usize, 3usize),
        (0usize, 4usize),
        (1usize, 0usize),
        (1usize, 2usize),
        (1usize, 3usize),
        (1usize, 4usize),
        (2usize, 0usize),
        (2usize, 1usize),
        (2usize, 3usize),
        (2usize, 4usize),
        (3usize, 0usize),
        (3usize, 1usize),
        (3usize, 2usize),
        (3usize, 4usize),
        (4usize, 0usize),
        (4usize, 1usize),
        (4usize, 2usize),
        (4usize, 3usize),
        (5usize, 6usize),
        (5usize, 7usize),
        (5usize, 8usize),
        (5usize, 9usize),
        (6usize, 5usize),
        (6usize, 7usize),
        (6usize, 8usize),
        (6usize, 9usize),
        (7usize, 5usize),
        (7usize, 6usize),
        (7usize, 8usize),
        (7usize, 9usize),
        (8usize, 5usize),
        (8usize, 6usize),
        (8usize, 7usize),
        (8usize, 9usize),
        (9usize, 5usize),
        (9usize, 6usize),
        (9usize, 7usize),
        (9usize, 8usize),
        (2usize, 6usize),
        (4usize, 5usize),
        (3usize, 7usize),
    ]
}

/// A 10-vertex graph made of two 5-cliques, `{0..4}` and `{5..9}`, bridged
/// by exactly the three edges `(2,6)`, `(4,5)` and `(3,7)` — its minimum
/// cut. The representation holds exactly [`graph_one_edges`].
pub fn graph_one<G: FromEdges>() -> (g: G)
    ensures
        g.spec_wf(),
        g.spec_vertices() == 10,
        g.spec_edge_count() == 43,
        g.spec_built_from(10, graph_one_edges()),
        g.spec_edge_pairs().to_multiset() == graph_one_edges().to_multiset(),
{
    let mut list: Vec<(usize, usize)> = Vec::new();
    // the first clique
    let mut a: usize = 0;
    while a < 5
        invariant
            a <= 5,
            list@.len() == a * 4,
            forall|k: int| 0 <= k < list@.len() ==> list@[k] == graph_one_edges()[k],
            forall|k: int| 0 <= k < list@.len() ==> (#[trigger] list@[k]).0 < 5 && list@[k].1 < 5,
        decreases 5 - a,
    {
        let mut b: usize = 0;
        let ghost len0 = list@.len();
        while b < 5
            invariant
                a < 5,
                b <= 5,
                len0 == a * 4,
                list@.len() == len0 + (if b > a {
                    b - 1
                } else {
                    b as int
                }),
                forall|k: int| 0 <= k < list@.len() ==> list@[k] == graph_one_edges()[k],
                forall|k: int|
                    0 <= k < list@.len() ==> (#[trigger] list@[k]).0 < 5 && list@[k].1 < 5,
            decreases 5 - b,
        {
            if b != a {
                list.push((a, b));
            }
            b = b + 1;
        }
        a = a + 1;
    }
    // the second clique
    let mut a: usize = 5;
    while a < 10
        invariant
            5 <= a <= 10,
            list@.len() == 20 + (a - 5) * 4,
            forall|k: int| 0 <= k < list@.len() ==> list@[k] == graph_one_edges()[k],
            forall|k: int| 0 <= k < list@.len() ==> (#[trigger] list@[k]).0 < 10 && list@[k].1 < 10,
        decreases 10 - a,
    {
        let mut b: usize = 5;
        let ghost len0 = list@.len();
        while b < 10
            invariant
                5 <= a < 10,
                5 <= b <= 10,
                len0 == 20 + (a - 5) * 4,
                list@.len() == len0 + (if b > a {
                    b - 6
                } else {
                    b - 5
                }) as int,
                forall|k: int| 0 <= k < list@.len() ==> list@[k] == graph_one_edges()[k],
                forall|k: int|
                    0 <= k < list@.len() ==> (#[trigger] list@[k]).0 < 10 && list@[k].1 < 10,
            decreases 10 - b,
        {
            if b != a {
                list.push((a, b));
            }
            b = b + 1;
        }
        a = a + 1;
    }
    // the min cut
    list.push((2, 6));
    list.push((4, 5));
    list.push((3, 7));
    proof {
        assert(list@ =~= graph_one_edges());
    }
    G::from_edges(10, list)
}

} // verus!
