//! The clustering-coefficient sampler.
//!
//! For each of `k` trials: pick a random eligible vertex `j`, pick two
//! distinct random out-neighbours `u` and `w` of `j` (re-sampling on
//! ties), and count a hit when `(u, w)` is itself an edge. The
//! coefficient is the hit count divided by `k` — a floating-point
//! quotient of what this module returns. Eligible vertices must be
//! pre-filtered by the caller to have two distinct neighbour values, as
//! no distinct pair can otherwise be drawn.
//!
//! Randomness comes from the caller's seeded generator, and the whole
//! sampling process is rendered as a spec-level function of the
//! generator's state, so the hit count is pinned: a run is deterministic
//! given the seed.

use vstd::prelude::*;
use crate::graphs::matrix::Adjacency;
use crate::util::random_numbs::{next_state, RandomGenerator};

verus! {

/// How many random draws a trial makes before it falls back to scanning
/// for a neighbour distinct from the first.
pub const TIE_RETRIES: usize = 64;

/// The row holds at least two distinct values.
pub open spec fn has_two_distinct(row: Seq<usize>) -> bool {
    exists|p: int, q: int| 0 <= p < row.len() && 0 <= q < row.len() && row[p] != row[q]
}

/// The graph has an edge `u -> v`.
pub open spec fn has_edge(g: Adjacency<()>, u: usize, v: usize) -> bool {
    exists|k: int|
        0 <= k < g.spec_row(u as int).len() && #[trigger] g.spec_row(u as int)[k] == v
}

/// Every pair of distinct out-neighbour values of `j` is itself linked.
pub open spec fn vertex_closes(g: Adjacency<()>, j: usize) -> bool {
    forall|p: int, q: int|
        0 <= p < g.spec_row(j as int).len() && 0 <= q < g.spec_row(j as int).len()
            && g.spec_row(j as int)[p] != g.spec_row(j as int)[q] ==> #[trigger] has_edge(
            g,
            g.spec_row(j as int)[p],
            g.spec_row(j as int)[q],
        )
}

/// No pair of distinct out-neighbour values of `j` is linked.
pub open spec fn vertex_opens(g: Adjacency<()>, j: usize) -> bool {
    forall|p: int, q: int|
        0 <= p < g.spec_row(j as int).len() && 0 <= q < g.spec_row(j as int).len()
            && g.spec_row(j as int)[p] != g.spec_row(j as int)[q] ==> !#[trigger] has_edge(
            g,
            g.spec_row(j as int)[p],
            g.spec_row(j as int)[q],
        )
}

/// Every listed vertex closes all its triangles.
pub open spec fn closes_all_triangles(g: Adjacency<()>, nodes: Seq<usize>) -> bool {
    forall|i: int| 0 <= i < nodes.len() ==> #[trigger] vertex_closes(g, nodes[i])
}

/// No listed vertex closes any triangle.
pub open spec fn opens_all_triangles(g: Adjacency<()>, nodes: Seq<usize>) -> bool {
    forall|i: int| 0 <= i < nodes.len() ==> #[trigger] vertex_opens(g, nodes[i])
}

/// One bounded draw: the next generator value reduced modulo `len`, and
/// the advanced state.
pub open spec fn spec_draw(s: (u64, u64), len: usize) -> (usize, (u64, u64)) {
    let st = next_state(s.0, s.1);
    ((st.0 % (len as u64)) as usize, (st.1, st.2))
}

/// The first row value distinct from `u` at or after position `p`
/// (`u` itself only if none exists).
pub open spec fn spec_pick_scan(row: Seq<usize>, u: usize, p: int) -> usize
    decreases row.len() - p,
        when 0 <= p
{
    if p >= row.len() {
        u
    } else if row[p] != u {
        row[p]
    } else {
        spec_pick_scan(row, u, p + 1)
    }
}

/// The re-sampling draw for the second neighbour: up to the retry budget
/// of random draws, then the deterministic scan.
pub open spec fn spec_pick(row: Seq<usize>, u: usize, s: (u64, u64), tries: int) -> (
    usize,
    (u64, u64),
)
    decreases TIE_RETRIES - tries,
        when tries <= TIE_RETRIES
{
    if tries >= TIE_RETRIES {
        (spec_pick_scan(row, u, 0), s)
    } else {
        let d = spec_draw(s, row.len() as usize);
        if row[d.0 as int] != u {
            (row[d.0 as int], d.1)
        } else {
            spec_pick(row, u, d.1, tries + 1)
        }
    }
}

/// One trial: draw an eligible vertex, a first neighbour, a distinct
/// second neighbour, and report whether the pair is linked, together with
/// the generator state afterwards.
pub open spec fn spec_trial(g: Adjacency<()>, nodes: Seq<usize>, s: (u64, u64)) -> (
    bool,
    (u64, u64),
) {
    let d0 = spec_draw(s, nodes.len() as usize);
    let j = nodes[d0.0 as int];
    let row = g.spec_row(j as int);
    let d1 = spec_draw(d0.1, row.len() as usize);
    let u = row[d1.0 as int];
    let p = spec_pick(row, u, d1.1, 0);
    (has_edge(g, u, p.0), p.1)
}

/// The hit count and generator state after `t` trials.
pub open spec fn spec_trials(g: Adjacency<()>, nodes: Seq<usize>, s: (u64, u64), t: int) -> (
    int,
    (u64, u64),
)
    decreases t,
{
    if t <= 0 {
        (0, s)
    } else {
        let prev = spec_trials(g, nodes, s, t - 1);
        let tr = spec_trial(g, nodes, prev.1);
        (
            prev.0 + (if tr.0 {
                1int
            } else {
                0int
            }),
            tr.1,
        )
    }
}

/// The number of trials, out of `k`, that drew a closed triangle: an
/// eligible vertex together with two of its distinct neighbours that are
/// themselves linked. The count and the generator's final state equal the
/// spec-level rendering of the trial loop, so a run is a deterministic
/// function of `(k, node_indexes, g)` and the seed; an empty vertex list
/// returns 0 without touching the generator. A graph whose eligible
/// vertices close every triangle scores `k`, and one that closes none
/// scores 0.
#[verifier::spinoff_prover]
pub fn c_coef_hits(
    k: u32,
    node_indexes: &Vec<usize>,
    g: &Adjacency<()>,
    rng: &mut RandomGenerator,
) -> (hits: u32)
    requires
        g.wf(),
        forall|i: int|
            0 <= i < node_indexes@.len() ==> (#[trigger] node_indexes@[i])
                < g.spec_matrix().len() && has_two_distinct(g.spec_row(node_indexes@[i] as int)),
    ensures
        hits <= k,
        node_indexes@.len() == 0 ==> hits == 0 && final(rng).spec_state() == old(rng).spec_state(),
        node_indexes@.len() > 0 ==> ({
            let r = spec_trials(*g, node_indexes@, old(rng).spec_state(), k as int);
            &&& hits as int == r.0
            &&& final(rng).spec_state() == r.1
        }),
        closes_all_triangles(*g, node_indexes@) && node_indexes@.len() > 0 ==> hits == k,
        opens_all_triangles(*g, node_indexes@) ==> hits == 0,
{
    if node_indexes.len() == 0 {
        return 0;
    }
    let ghost s0 = rng.spec_state();
    let mut hits: u32 = 0;
    let mut trial: u32 = 0;
    while trial < k
        invariant
            g.wf(),
            node_indexes@.len() > 0,
            forall|i: int|
                0 <= i < node_indexes@.len() ==> (#[trigger] node_indexes@[i])
                    < g.spec_matrix().len() && has_two_distinct(
                    g.spec_row(node_indexes@[i] as int),
                ),
            trial <= k,
            hits <= trial,
            hits as int == spec_trials(*g, node_indexes@, s0, trial as int).0,
            rng.spec_state() == spec_trials(*g, node_indexes@, s0, trial as int).1,
            closes_all_triangles(*g, node_indexes@) ==> hits == trial,
            opens_all_triangles(*g, node_indexes@) ==> hits == 0,
        decreases k - trial,
    {
        let ghost s_top = rng.spec_state();
        let ji = rng.next_below(node_indexes.len());
        let j = node_indexes[ji];
        let row = g.neighbours(j);
        proof {
            assert(has_two_distinct(g.spec_row(j as int)));
            assert(g.spec_row(j as int).len() == row@.len());
        }
        let ui = rng.next_below(row.len());
        let u = row[ui].to;
        proof {
            assert(g.spec_row(j as int)[ui as int] == u);
        }
        let w = pick_distinct(row, u, rng, Ghost(g.spec_row(j as int)));
        let linked = g.has_link(u, w);
        proof {
            let qi = choose|q: int|
                0 <= q < g.spec_row(j as int).len() && #[trigger] g.spec_row(j as int)[q] == w;
            assert(g.spec_row(j as int)[qi] == w);
            if linked {
                let kk = choose|kk: int|
                    0 <= kk < g.spec_row(u as int).len() && #[trigger] g.spec_row(u as int)[kk]
                        == w;
                assert(has_edge(*g, u, w));
                if opens_all_triangles(*g, node_indexes@) {
                    assert(vertex_opens(*g, j));
                    assert(!has_edge(
                        *g,
                        g.spec_row(j as int)[ui as int],
                        g.spec_row(j as int)[qi],
                    ));
                    assert(false);
                }
            } else {
                if has_edge(*g, u, w) {
                    let kk = choose|kk: int|
                        0 <= kk < g.spec_row(u as int).len() && #[trigger] g.spec_row(u as int)[kk]
                            == w;
                    assert(g.spec_row(u as int)[kk] == w);
                    assert(false);
                }
                if closes_all_triangles(*g, node_indexes@) {
                    assert(vertex_closes(*g, j));
                    assert(has_edge(
                        *g,
                        g.spec_row(j as int)[ui as int],
                        g.spec_row(j as int)[qi],
                    ));
                    assert(false);
                }
            }
            assert(linked == has_edge(*g, u, w));
            assert(spec_trial(*g, node_indexes@, s_top) == (linked, rng.spec_state()));
        }
        if linked {
            hits = hits + 1;
        }
        trial = trial + 1;
    }
    hits
}

/// Draw a neighbour value distinct from `u`: re-sample a bounded number
/// of times, then fall back to scanning — a distinct value exists because
/// the row holds two distinct values. The result and the generator state
/// afterwards are exactly [`spec_pick`] of the entry state.
fn pick_distinct(
    row: &Vec<crate::graphs::To<()>>,
    u: usize,
    rng: &mut RandomGenerator,
    Ghost(ids): Ghost<Seq<usize>>,
) -> (w: usize)
    requires
        ids == row@.map_values(|t: crate::graphs::To<()>| t.to),
        has_two_distinct(ids),
    ensures
        w != u,
        exists|p: int| 0 <= p < ids.len() && #[trigger] ids[p] == w,
        (w, final(rng).spec_state()) == spec_pick(ids, u, old(rng).spec_state(), 0),
{
    let mut tries: usize = 0;
    proof {
        assert(ids.len() > 0);
    }
    while tries < TIE_RETRIES
        invariant
            ids == row@.map_values(|t: crate::graphs::To<()>| t.to),
            has_two_distinct(ids),
            row@.len() > 0,
            tries <= TIE_RETRIES,
            spec_pick(ids, u, old(rng).spec_state(), 0) == spec_pick(
                ids,
                u,
                rng.spec_state(),
                tries as int,
            ),
        decreases TIE_RETRIES - tries,
    {
        let wi = rng.next_below(row.len());
        let w = row[wi].to;
        proof {
            assert(ids[wi as int] == w);
        }
        if w != u {
            return w;
        }
        tries = tries + 1;
    }
    // scan: since two values differ, some value differs from u
    let n = row.len();
    let mut p: usize = 0;
    while p < n
        invariant
            ids == row@.map_values(|t: crate::graphs::To<()>| t.to),
            has_two_distinct(ids),
            n == row@.len(),
            p <= n,
            forall|q: int| 0 <= q < p ==> (#[trigger] row@[q]).to == u,
            spec_pick_scan(ids, u, 0) == spec_pick_scan(ids, u, p as int),
            spec_pick(ids, u, old(rng).spec_state(), 0) == (spec_pick_scan(ids, u, 0), rng.spec_state()),
        decreases n - p,
    {
        let w = row[p].to;
        proof {
            assert(ids[p as int] == w);
        }
        if w != u {
            proof {
                assert(spec_pick_scan(ids, u, p as int) == w);
            }
            return w;
        }
        p = p + 1;
    }
    proof {
        let (a, b) = choose|a: int, b: int|
            0 <= a < ids.len() && 0 <= b < ids.len() && ids[a] != ids[b];
        assert(row@[a].to == u);
        assert(row@[b].to == u);
        assert(false);
    }
    u
}

} // verus!
