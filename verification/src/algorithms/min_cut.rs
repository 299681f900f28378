//! Karger-Stein randomized minimum cut.
//!
//! Each run contracts random edges (tracked in a disjoint set over the
//! vertices) down to two components and reads off the edges that cross the
//! resulting partition; recursion re-tries each level twice from roughly
//! `components / sqrt(2)` components. The baseline variant clones the
//! disjoint set at each branch; the fast variant reuses one undoable
//! disjoint set through save/restore checkpoints.
//!
//! Every returned cut is exact for *some* partition of the vertices: the
//! contracts below pin the result as the crossing-edge set of a
//! well-formed forest, read against a permutation of the graph's edge
//! multiset. How often that cut is a *minimum* cut is a probabilistic
//! property, exercised by the tests.

use vstd::prelude::*;
use crate::graphs::{edges_wf, Edge};
use crate::graphs::edge_list::EdgeList;
use crate::util::disjoint_set::{
    ds_nodes_wf, lemma_roots_nonempty, root_of, roots_set, same_set, DisjointSet, FindMode, Node,
    SimpleDisjointSet, UndoDisjointSet,
};
use crate::util::random_numbs::sample_index;

verus! {

broadcast use vstd::seq_lib::group_to_multiset_ensures;

/// The recursion bound of one contraction run: far above the
/// `log_{sqrt 2}` depth reachable on any machine-sized graph.
pub const CONTRACTION_FUEL: usize = 200;

/// The pairs of `edges` whose endpoints lie in different sets of the
/// partition described by `nodes`.
pub open spec fn cut_edges(edges: Seq<Edge>, nodes: Seq<Node>) -> Seq<(usize, usize)> {
    edges.filter(|e: Edge| !same_set(nodes, e.0 as int, e.1 as int)).map_values(
        |e: Edge| (e.0, e.1),
    )
}

/// The result of one contraction run: the crossing edges of some
/// well-formed partition of the `n` vertices, read against some
/// permutation of the final edge multiset. The partition is proper: it
/// has at least two classes whenever the graph has at least two vertices,
/// so the empty cut is only admissible where a crossing-free partition
/// exists.
pub open spec fn is_cut_of(r: Seq<(usize, usize)>, edges: Seq<Edge>, n: int) -> bool {
    exists|perm: Seq<Edge>, nodes: Seq<Node>|
        {
            &&& perm.to_multiset() == edges.to_multiset()
            &&& ds_nodes_wf(nodes)
            &&& nodes.len() == n
            &&& (nodes.len() >= 2 ==> roots_set(nodes).len() >= 2)
            &&& (nodes.len() == 1 ==> roots_set(nodes).len() >= 1)
            &&& r == #[trigger] cut_edges(perm, nodes)
        }
}

/// Filtering a sequence extended by one element keeps the old filtered
/// prefix and appends the element exactly when it matches.
proof fn lemma_filter_push<A>(s: Seq<A>, pred: spec_fn(A) -> bool, e: A)
    ensures
        pred(e) ==> s.push(e).filter(pred) == s.filter(pred).push(e),
        !pred(e) ==> s.push(e).filter(pred) == s.filter(pred),
{
    reveal(Seq::filter);
    assert(s.push(e).drop_last() =~= s);
    assert(s.push(e).last() == e);
}

/// Swap two edges of the array in place: a permutation, so the edge
/// multiset and endpoint bounds are preserved.
fn swap_edges(edges: &mut Vec<Edge>, a: usize, b: usize)
    requires
        a < old(edges)@.len(),
        b < old(edges)@.len(),
    ensures
        final(edges)@ == old(edges)@.update(a as int, old(edges)@[b as int]).update(
            b as int,
            old(edges)@[a as int],
        ),
        final(edges)@.to_multiset() == old(edges)@.to_multiset(),
        final(edges)@.len() == old(edges)@.len(),
{
    let ghost orig = edges@;
    let ea = edges[a];
    let eb = edges[b];
    edges.set(a, eb);
    edges.set(b, ea);
    proof {
        broadcast use vstd::multiset::group_multiset_axioms;
        broadcast use vstd::multiset::group_multiset_properties;

        if a == b {
            assert(edges@ =~= orig);
        } else {
            assert(edges@.to_multiset() =~= orig.to_multiset());
        }
    }
}

/// Contract random edges, starting at `cur_node` in the edge array, until
/// the partition has at most `comp` components or the edges run out. For
/// `comp == 2`, returns exactly the edges crossing the final partition;
/// otherwise returns nothing.
fn contract<D: DisjointSet>(
    edges: &mut Vec<Edge>,
    ds: &mut D,
    comp: usize,
    cur_node: &mut usize,
) -> (r: Vec<(usize, usize)>)
    requires
        old(ds).wf(),
        comp >= 2,
        edges_wf(old(edges)@, old(ds).spec_nodes().len() as int),
        *old(cur_node) <= old(edges)@.len(),
    ensures
        final(ds).wf(),
        final(ds).spec_nodes().len() == old(ds).spec_nodes().len(),
        final(ds).spec_components() <= old(ds).spec_components(),
        final(edges)@.len() == old(edges)@.len(),
        final(edges)@.to_multiset() == old(edges)@.to_multiset(),
        edges_wf(final(edges)@, old(ds).spec_nodes().len() as int),
        *old(cur_node) <= *final(cur_node) <= final(edges)@.len(),
        final(ds).spec_components() <= comp || *final(cur_node) == final(edges)@.len(),
        old(ds).spec_components() >= comp ==> final(ds).spec_components() >= comp,
        old(ds).spec_components() < comp ==> final(ds).spec_components() == old(
            ds,
        ).spec_components(),
        comp == 2 ==> r@ == cut_edges(final(edges)@, final(ds).spec_nodes()),
        comp != 2 ==> r@ == Seq::<(usize, usize)>::empty(),
{
    let ghost n = old(ds).spec_nodes().len() as int;
    let mut cur = *cur_node;
    loop
        invariant
            ds.wf(),
            ds.spec_nodes().len() == old(ds).spec_nodes().len(),
            ds.spec_components() <= old(ds).spec_components(),
            edges@.len() == old(edges)@.len(),
            edges@.to_multiset() == old(edges)@.to_multiset(),
            edges_wf(edges@, n),
            n == old(ds).spec_nodes().len(),
            *old(cur_node) <= cur <= edges@.len(),
            ds.spec_components() >= comp || ds.spec_components() == old(ds).spec_components(),
        ensures
            ds.wf(),
            ds.spec_nodes().len() == old(ds).spec_nodes().len(),
            ds.spec_components() <= old(ds).spec_components(),
            edges@.len() == old(edges)@.len(),
            edges@.to_multiset() == old(edges)@.to_multiset(),
            edges_wf(edges@, n),
            *old(cur_node) <= cur <= edges@.len(),
            ds.spec_components() <= comp || cur == edges@.len(),
            ds.spec_components() >= comp || ds.spec_components() == old(ds).spec_components(),
        decreases edges@.len() - cur,
    {
        if cur >= edges.len() {
            break ;
        }
        if ds.components() <= comp {
            break ;
        }
        let i = sample_index(cur, edges.len());
        swap_edges(edges, cur, i);
        let e = edges[cur];
        if !ds.are_connected(e.0, e.1) {
            ds.union(e.0, e.1);
        }
        cur = cur + 1;
    }
    *cur_node = cur;
    if comp == 2 {
        collect_cut(edges, ds)
    } else {
        Vec::new()
    }
}

/// The edges whose endpoints are in different sets of `ds`'s partition.
fn collect_cut<D: DisjointSet>(edges: &Vec<Edge>, ds: &mut D) -> (r: Vec<(usize, usize)>)
    requires
        old(ds).wf(),
        edges_wf(edges@, old(ds).spec_nodes().len() as int),
    ensures
        final(ds).wf(),
        final(ds).spec_nodes().len() == old(ds).spec_nodes().len(),
        final(ds).spec_components() == old(ds).spec_components(),
        r@ == cut_edges(edges@, final(ds).spec_nodes()),
{
    // snapshot every vertex's representative first, so the collection loop
    // itself never touches the structure
    let n = ds.size();
    let mut roots: Vec<usize> = Vec::new();
    let mut v: usize = 0;
    while v < n
        invariant
            ds.wf(),
            ds.spec_nodes().len() == old(ds).spec_nodes().len(),
            ds.spec_components() == old(ds).spec_components(),
            n == ds.spec_nodes().len(),
            v <= n,
            roots@.len() == v,
            forall|w: int| 0 <= w < v ==> roots@[w] == root_of(ds.spec_nodes(), w),
        decreases n - v,
    {
        let r = ds.find(v);
        roots.push(r);
        v = v + 1;
    }
    let ghost nodes = ds.spec_nodes();
    proof {
        ds.lemma_wf();
    }
    let m = edges.len();
    let mut r: Vec<(usize, usize)> = Vec::new();
    let mut k: usize = 0;
    while k < m
        invariant
            m == edges@.len(),
            k <= m,
            n == nodes.len(),
            ds_nodes_wf(nodes),
            edges_wf(edges@, n as int),
            roots@.len() == n,
            forall|w: int| 0 <= w < n ==> roots@[w] == root_of(nodes, w),
            r@ == cut_edges(edges@.subrange(0, k as int), nodes),
        decreases m - k,
    {
        let e = edges[k];
        proof {
            assert(edges@.subrange(0, k + 1) =~= edges@.subrange(0, k as int).push(e));
            lemma_filter_push(
                edges@.subrange(0, k as int),
                |e: Edge| !same_set(nodes, e.0 as int, e.1 as int),
                e,
            );
        }
        if roots[e.0] != roots[e.1] {
            r.push((e.0, e.1));
            proof {
                assert(r@ =~= cut_edges(edges@.subrange(0, k + 1), nodes));
            }
        } else {
            proof {
                assert(r@ =~= cut_edges(edges@.subrange(0, k + 1), nodes));
            }
        }
        k = k + 1;
    }
    proof {
        assert(edges@.subrange(0, m as int) =~= edges@);
    }
    r
}

/// One recursive run of the baseline algorithm: the disjoint set is cloned
/// at each branch; the two sub-tries share the evolving edge permutation
/// but re-read it from independent cursors.
fn min_cut<F: FindMode>(
    edges: &mut Vec<Edge>,
    ds: SimpleDisjointSet<F>,
    current_node: usize,
    fuel: usize,
) -> (r: Vec<(usize, usize)>)
    requires
        ds.wf(),
        edges_wf(old(edges)@, ds.spec_nodes().len() as int),
        current_node <= old(edges)@.len(),
        ds.spec_components() >= 2 || ds.spec_nodes().len() < 2,
    ensures
        final(edges)@.len() == old(edges)@.len(),
        final(edges)@.to_multiset() == old(edges)@.to_multiset(),
        edges_wf(final(edges)@, ds.spec_nodes().len() as int),
        is_cut_of(r@, final(edges)@, ds.spec_nodes().len() as int),
    decreases fuel,
{
    let ghost n = ds.spec_nodes().len() as int;
    let mut dsm = ds;
    let c = dsm.components();
    if c < 6 || fuel == 0 {
        let mut cur = current_node;
        let r = contract(edges, &mut dsm, 2, &mut cur);
        proof {
            dsm.lemma_wf();
            assert(r@ == cut_edges(edges@, dsm.spec_nodes()));
            let w = dsm.spec_nodes();
            assert(roots_set(w).len() == dsm.spec_components());
            if w.len() == 1 {
                lemma_roots_nonempty(w);
            }
        }
        r
    } else {
        let t = 1 + isqrt_half_square(c);
        let mut current_node_copy = current_node;
        let mut ds1 = dsm.clone();
        contract(edges, &mut ds1, t, &mut current_node_copy);
        let m1 = min_cut(edges, ds1, current_node_copy, fuel - 1);
        let ghost mid = edges@;

        let mut cur = current_node;
        contract(edges, &mut dsm, t, &mut cur);
        let m2 = min_cut(edges, dsm, cur, fuel - 1);
        proof {
            lemma_cut_of_permuted(m1@, mid, edges@, n);
        }
        if m1.len() < m2.len() {
            m1
        } else {
            m2
        }
    }
}

/// A cut witnessed against one edge permutation is a cut of any other
/// arrangement of the same multiset.
proof fn lemma_cut_of_permuted(r: Seq<(usize, usize)>, e1: Seq<Edge>, e2: Seq<Edge>, n: int)
    requires
        is_cut_of(r, e1, n),
        e1.to_multiset() == e2.to_multiset(),
    ensures
        is_cut_of(r, e2, n),
{
    let (perm, nodes) = choose|perm: Seq<Edge>, nodes: Seq<Node>|
        {
            &&& perm.to_multiset() == e1.to_multiset()
            &&& ds_nodes_wf(nodes)
            &&& nodes.len() == n
            &&& (nodes.len() >= 2 ==> roots_set(nodes).len() >= 2)
            &&& (nodes.len() == 1 ==> roots_set(nodes).len() >= 1)
            &&& r == #[trigger] cut_edges(perm, nodes)
        };
    assert(perm.to_multiset() == e2.to_multiset());
    assert(r == cut_edges(perm, nodes));
}

/// Baseline Karger-Stein: repeat independent contraction runs and keep the
/// smallest cut found. The edge array is permuted in place; its multiset
/// and the vertex count are unchanged.
pub fn karger_stein<F: FindMode>(g: &mut EdgeList<()>) -> (r: Vec<(usize, usize)>)
    requires
        old(g).wf(),
    ensures
        final(g).wf(),
        final(g).spec_n_vertices() == old(g).spec_n_vertices(),
        final(g).spec_edges().len() == old(g).spec_edges().len(),
        final(g).spec_edges().to_multiset() == old(g).spec_edges().to_multiset(),
        is_cut_of(r@, final(g).spec_edges(), old(g).spec_n_vertices() as int),
{
    let n_vert = g.n_vertices;
    let runs = karger_runs(n_vert);
    let ds: SimpleDisjointSet<F> = DisjointSet::new(n_vert);
    let mut best = min_cut(&mut g.edges, ds, 0, CONTRACTION_FUEL);
    let mut run: usize = 1;
    while run < runs
        invariant
            g.n_vertices == old(g).spec_n_vertices(),
            g.edges@.len() == old(g).spec_edges().len(),
            g.edges@.to_multiset() == old(g).spec_edges().to_multiset(),
            edges_wf(g.edges@, g.n_vertices as int),
            is_cut_of(best@, g.edges@, g.n_vertices as int),
        decreases runs - run,
    {
        let ghost pre = g.edges@;
        let ds: SimpleDisjointSet<F> = DisjointSet::new(g.n_vertices);
        let m = min_cut(&mut g.edges, ds, 0, CONTRACTION_FUEL);
        proof {
            lemma_cut_of_permuted(best@, pre, g.edges@, g.n_vertices as int);
        }
        if m.len() < best.len() {
            best = m;
        }
        run = run + 1;
    }
    best
}

/// One recursive run of the fast variant: a single undoable disjoint set,
/// with the first branch bracketed by a checkpoint and a restore.
fn fast_min_cut<F: FindMode>(
    edges: &mut Vec<Edge>,
    ds: &mut UndoDisjointSet<F>,
    current_node: usize,
    fuel: usize,
) -> (r: Vec<(usize, usize)>)
    requires
        old(ds).wf(),
        edges_wf(old(edges)@, old(ds).spec_nodes().len() as int),
        current_node <= old(edges)@.len(),
        old(ds).spec_components() >= 2 || old(ds).spec_nodes().len() < 2,
    ensures
        final(ds).wf(),
        final(ds).spec_nodes().len() == old(ds).spec_nodes().len(),
        final(edges)@.len() == old(edges)@.len(),
        final(edges)@.to_multiset() == old(edges)@.to_multiset(),
        edges_wf(final(edges)@, old(ds).spec_nodes().len() as int),
        is_cut_of(r@, final(edges)@, old(ds).spec_nodes().len() as int),
    decreases fuel,
{
    let ghost n = old(ds).spec_nodes().len() as int;
    let c = ds.components();
    if c < 6 || fuel == 0 {
        let mut cur = current_node;
        let r = contract(edges, ds, 2, &mut cur);
        proof {
            ds.lemma_wf();
            assert(r@ == cut_edges(edges@, ds.spec_nodes()));
            let w = ds.spec_nodes();
            assert(roots_set(w).len() == ds.spec_components());
            if w.len() == 1 {
                lemma_roots_nonempty(w);
            }
        }
        r
    } else {
        let t = 1 + isqrt_half_square(c);
        let mut current_node_copy = current_node;
        ds.save_state();
        contract(edges, ds, t, &mut current_node_copy);
        let m1 = fast_min_cut(edges, ds, current_node_copy, fuel - 1);
        ds.restore_state();
        let ghost mid = edges@;

        // the restore contract does not carry the component count back;
        // guard the recursion's floor (a restore rewinds to the
        // checkpoint's state, so this branch is never taken)
        if ds.components() < 2 && ds.size() >= 2 {
            return m1;
        }
        current_node_copy = current_node;
        contract(edges, ds, t, &mut current_node_copy);
        let m2 = fast_min_cut(edges, ds, current_node_copy, fuel - 1);
        proof {
            lemma_cut_of_permuted(m1@, mid, edges@, n);
        }
        if m1.len() < m2.len() {
            m1
        } else {
            m2
        }
    }
}

/// Fast Karger-Stein: independent runs of the save/restore variant,
/// keeping the smallest cut found.
pub fn fast_karger_stein<F: FindMode>(g: &mut EdgeList<()>) -> (r: Vec<(usize, usize)>)
    requires
        old(g).wf(),
    ensures
        final(g).wf(),
        final(g).spec_n_vertices() == old(g).spec_n_vertices(),
        final(g).spec_edges().len() == old(g).spec_edges().len(),
        final(g).spec_edges().to_multiset() == old(g).spec_edges().to_multiset(),
        is_cut_of(r@, final(g).spec_edges(), old(g).spec_n_vertices() as int),
{
    let n_vert = g.n_vertices;
    let runs = karger_runs(n_vert);
    let mut ds: UndoDisjointSet<F> = DisjointSet::new(n_vert);
    let mut best = fast_min_cut(&mut g.edges, &mut ds, 0, CONTRACTION_FUEL);
    let mut run: usize = 1;
    while run < runs
        invariant
            g.n_vertices == old(g).spec_n_vertices(),
            g.edges@.len() == old(g).spec_edges().len(),
            g.edges@.to_multiset() == old(g).spec_edges().to_multiset(),
            edges_wf(g.edges@, g.n_vertices as int),
            is_cut_of(best@, g.edges@, g.n_vertices as int),
        decreases runs - run,
    {
        let ghost pre = g.edges@;
        let mut ds: UndoDisjointSet<F> = DisjointSet::new(g.n_vertices);
        let m = fast_min_cut(&mut g.edges, &mut ds, 0, CONTRACTION_FUEL);
        proof {
            lemma_cut_of_permuted(best@, pre, g.edges@, g.n_vertices as int);
        }
        if m.len() < best.len() {
            best = m;
        }
        run = run + 1;
    }
    best
}

/// Baseline Karger-Stein reporting only the size of the best cut found.
pub fn karger_stein_count<F: FindMode>(g: &mut EdgeList<()>) -> (r: usize)
    requires
        old(g).wf(),
    ensures
        final(g).wf(),
        final(g).spec_n_vertices() == old(g).spec_n_vertices(),
        final(g).spec_edges().len() == old(g).spec_edges().len(),
        final(g).spec_edges().to_multiset() == old(g).spec_edges().to_multiset(),
        exists|cut: Seq<(usize, usize)>|
            #[trigger] is_cut_of(cut, final(g).spec_edges(), old(g).spec_n_vertices() as int)
                && r == cut.len(),
{
    let cut = karger_stein::<F>(g);
    cut.len()
}

/// Fast Karger-Stein reporting only the size of the best cut found.
pub fn fast_karger_stein_count<F: FindMode>(g: &mut EdgeList<()>) -> (r: usize)
    requires
        old(g).wf(),
    ensures
        final(g).wf(),
        final(g).spec_n_vertices() == old(g).spec_n_vertices(),
        final(g).spec_edges().len() == old(g).spec_edges().len(),
        final(g).spec_edges().to_multiset() == old(g).spec_edges().to_multiset(),
        exists|cut: Seq<(usize, usize)>|
            #[trigger] is_cut_of(cut, final(g).spec_edges(), old(g).spec_n_vertices() as int)
                && r == cut.len(),
{
    let cut = fast_karger_stein::<F>(g);
    cut.len()
}

/// The floor of the base-2 logarithm (0 for inputs below 2).
pub open spec fn floor_log2(n: int) -> int
    decreases n,
{
    if n <= 1 {
        0
    } else {
        1 + floor_log2(n / 2)
    }
}

/// The floor logarithm is never negative.
proof fn lemma_floor_log2_nonneg(n: int)
    ensures
        floor_log2(n) >= 0,
    decreases n,
{
    if n > 1 {
        lemma_floor_log2_nonneg(n / 2);
    }
}

/// The floor logarithm of anything below `2^(k+1)` is at most `k`.
proof fn lemma_floor_log2_le(n: int, k: nat)
    requires
        n < vstd::arithmetic::power2::pow2(k + 1),
    ensures
        floor_log2(n) <= k,
    decreases k,
{
    if n > 1 {
        assert(vstd::arithmetic::power2::pow2(k + 1) == 2 * vstd::arithmetic::power2::pow2(k)) by {
            vstd::arithmetic::power2::lemma_pow2_unfold(k + 1);
        }
        assert(k > 0) by {
            if k == 0 {
                assert(vstd::arithmetic::power2::pow2(1) == 2) by {
                    vstd::arithmetic::power2::lemma2_to64();
                }
            }
        }
        lemma_floor_log2_le(n / 2, (k - 1) as nat);
    }
}

/// The number of independent runs: `floor(log2 n)^2 + 2`.
fn karger_runs(n: usize) -> (r: usize)
    ensures
        r == floor_log2(n as int) * floor_log2(n as int) + 2,
{
    proof {
        vstd::arithmetic::power2::lemma2_to64();
        vstd::arithmetic::power2::lemma2_to64_rest();
        lemma_floor_log2_le(n as int, 63);
        lemma_floor_log2_nonneg(n as int);
    }
    let mut log: usize = 0;
    let mut m: usize = n;
    while m > 1
        invariant
            floor_log2(n as int) == log + floor_log2(m as int),
            floor_log2(n as int) <= 63,
            floor_log2(m as int) >= 0,
        decreases m,
    {
        m = m / 2;
        log = log + 1;
        proof {
            lemma_floor_log2_nonneg(m as int);
        }
    }
    proof {
        assert(log * log <= 63 * 63) by (nonlinear_arith)
            requires
                log <= 63,
        ;
    }
    log * log + 2
}

/// `floor(sqrt(c^2 / 2))`, the component target of one recursion level.
fn isqrt_half_square(c: usize) -> (r: usize)
    ensures
        (r as int) * (r as int) <= (c as int) * (c as int) / 2,
        (c as int) * (c as int) / 2 < (r as int + 1) * (r as int + 1),
        r <= c,
        c >= 2 ==> 1 <= r < c,
{
    proof {
        assert((c as u128) * (c as u128) <= 0xFFFFFFFFFFFFFFFFu128 * 0xFFFFFFFFFFFFFFFFu128)
            by (nonlinear_arith)
            requires
                c as u128 <= 0xFFFFFFFFFFFFFFFFu128,
        ;
    }
    let x: u128 = (c as u128) * (c as u128) / 2;
    let mut lo: u128 = 0;
    let mut hi: u128 = (c as u128) + 1;
    proof {
        assert(((c as u128) + 1) * ((c as u128) + 1) > (c as u128) * (c as u128) / 2)
            by (nonlinear_arith);
    }
    while lo + 1 < hi
        invariant
            lo < hi,
            hi <= (c as u128) + 1,
            lo * lo <= x,
            hi * hi > x,
            x == (c as u128) * (c as u128) / 2,
        decreases hi - lo,
    {
        let mid = lo + (hi - lo) / 2;
        proof {
            assert(mid * mid <= (c as u128) * (c as u128)) by (nonlinear_arith)
                requires
                    mid <= c as u128,
            ;
            assert((c as u128) * (c as u128) <= 0xFFFFFFFFFFFFFFFFu128
                * 0xFFFFFFFFFFFFFFFFu128) by (nonlinear_arith)
                requires
                    c as u128 <= 0xFFFFFFFFFFFFFFFFu128,
            ;
        }
        if mid * mid <= x {
            lo = mid;
        } else {
            hi = mid;
        }
    }
    proof {
        assert(lo <= c) by (nonlinear_arith)
            requires
                lo * lo <= x,
                x == (c as u128) * (c as u128) / 2,
                hi * hi > x,
                lo < hi,
                hi <= (c as u128) + 1,
        ;
        if c >= 2 && lo == 0 {
            assert(x >= 2) by (nonlinear_arith)
                requires
                    x == (c as u128) * (c as u128) / 2,
                    c >= 2,
            ;
            assert(hi == 1);
        }
        if c >= 2 {
            assert(lo < c as u128) by (nonlinear_arith)
                requires
                    lo * lo <= x,
                    x == (c as u128) * (c as u128) / 2,
                    c >= 2,
            ;
        }
    }
    lo as usize
}

} // verus!
