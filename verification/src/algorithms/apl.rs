//! Exact average path length via Floyd-Warshall.
//!
//! The distance matrix is computed over the symmetrized edge set with
//! `u64::MAX` standing for "unreachable", staged by the classic
//! recurrence `d_k(i,j) = min(d_{k-1}(i,j), d_{k-1}(i,k) + d_{k-1}(k,j))`.
//! The average itself — the matrix sum divided by `n (n - 1) / 2` — is a
//! floating-point quotient of the integer sum this module returns.

use vstd::prelude::*;
use crate::graphs::Edge;
use crate::graphs::edge_list::EdgeList;

verus! {

/// Whether the edge list holds `(i, j)` in either direction.
pub open spec fn has_sym_edge(edges: Seq<Edge>, i: int, j: int) -> bool {
    exists|k: int|
        0 <= k < edges.len() && ((#[trigger] edges[k]).0 == i && edges[k].1 == j || edges[k].0 == j
            && edges[k].1 == i)
}

/// The initial distance: 0 on the diagonal, 1 on symmetrized edges,
/// unreachable otherwise.
pub open spec fn fw_init(edges: Seq<Edge>, i: int, j: int) -> int {
    if i == j {
        0
    } else if has_sym_edge(edges, i, j) {
        1
    } else {
        u64::MAX as int
    }
}

/// The Floyd-Warshall recurrence after intermediate vertices `0..k` have
/// been considered.
pub open spec fn fw(edges: Seq<Edge>, k: int, i: int, j: int) -> int
    decreases k,
{
    if k <= 0 {
        fw_init(edges, i, j)
    } else {
        let p = fw(edges, k - 1, i, j);
        let a = fw(edges, k - 1, i, k - 1);
        let b = fw(edges, k - 1, k - 1, j);
        if a + b < p {
            a + b
        } else {
            p
        }
    }
}

/// Copy one row.
fn copy_row(row: &Vec<u64>) -> (r: Vec<u64>)
    ensures
        r@ == row@,
{
    let mut r: Vec<u64> = Vec::new();
    let n = row.len();
    let mut k: usize = 0;
    while k < n
        invariant
            k <= n,
            n == row@.len(),
            r@ == row@.subrange(0, k as int),
        decreases n - k,
    {
        r.push(row[k]);
        proof {
            assert(r@ =~= row@.subrange(0, k + 1));
        }
        k = k + 1;
    }
    proof {
        assert(r@ =~= row@);
    }
    r
}

/// Copy a whole matrix.
fn copy_matrix(m: &Vec<Vec<u64>>) -> (r: Vec<Vec<u64>>)
    ensures
        r@.len() == m@.len(),
        forall|i: int| 0 <= i < m@.len() ==> (#[trigger] r@[i])@ == m@[i]@,
{
    let mut r: Vec<Vec<u64>> = Vec::new();
    let n = m.len();
    let mut k: usize = 0;
    while k < n
        invariant
            k <= n,
            n == m@.len(),
            r@.len() == k,
            forall|i: int| 0 <= i < k ==> (#[trigger] r@[i])@ == m@[i]@,
        decreases n - k,
    {
        r.push(copy_row(&m[k]));
        k = k + 1;
    }
    r
}

/// The all-pairs distance matrix of the symmetrized graph, with
/// `u64::MAX` for unreachable pairs.
pub fn apl_distances(g: &EdgeList<()>) -> (d: Vec<Vec<u64>>)
    requires
        g.wf(),
    ensures
        d@.len() == g.spec_n_vertices(),
        forall|i: int| 0 <= i < d@.len() ==> (#[trigger] d@[i])@.len() == g.spec_n_vertices(),
        forall|i: int, j: int|
            0 <= i < d@.len() && 0 <= j < d@.len() ==> (#[trigger] d@[i]@[j]) as int == fw(
                g.spec_edges(),
                g.spec_n_vertices() as int,
                i,
                j,
            ),
{
    let n = g.n_vertices;
    let ghost edges = g.edges@;
    // unreachable everywhere
    let mut d: Vec<Vec<u64>> = Vec::new();
    let mut i: usize = 0;
    while i < n
        invariant
            i <= n,
            d@.len() == i,
            forall|x: int|
                0 <= x < i ==> (#[trigger] d@[x])@ == Seq::new(n as nat, |y: int| u64::MAX),
        decreases n - i,
    {
        let mut row: Vec<u64> = Vec::new();
        let mut j: usize = 0;
        while j < n
            invariant
                j <= n,
                row@.len() == j,
                forall|y: int| 0 <= y < j ==> row@[y] == u64::MAX,
            decreases n - j,
        {
            row.push(u64::MAX);
            j = j + 1;
        }
        proof {
            assert(row@ =~= Seq::new(n as nat, |y: int| u64::MAX));
        }
        d.push(row);
        i = i + 1;
    }
    // symmetrized edges at distance 1
    let m = g.edges.len();
    let mut k: usize = 0;
    while k < m
        invariant
            m == edges.len(),
            edges == g.edges@,
            g.wf(),
            n == g.spec_n_vertices(),
            k <= m,
            d@.len() == n,
            forall|x: int| 0 <= x < n ==> (#[trigger] d@[x])@.len() == n,
            forall|x: int, y: int|
                0 <= x < n && 0 <= y < n ==> (#[trigger] d@[x]@[y]) == (if has_sym_edge(
                    edges.subrange(0, k as int),
                    x,
                    y,
                ) {
                    1u64
                } else {
                    u64::MAX
                }),
        decreases m - k,
    {
        let ghost pre = d@;
        let e = g.edges[k];
        d[e.0].set(e.1, 1);
        d[e.1].set(e.0, 1);
        proof {
            assert(edges.subrange(0, k + 1) =~= edges.subrange(0, k as int).push(e));
            assert forall|x: int, y: int| 0 <= x < n && 0 <= y < n implies (#[trigger] d@[x]@[y])
                == (if has_sym_edge(edges.subrange(0, k + 1), x, y) {
                1u64
            } else {
                u64::MAX
            }) by {
                let sub = edges.subrange(0, k as int);
                let sub1 = edges.subrange(0, k + 1);
                if x == e.0 as int && y == e.1 as int || x == e.1 as int && y == e.0 as int {
                    assert(sub1[k as int] == e);
                    assert(has_sym_edge(sub1, x, y));
                } else {
                    assert(d@[x]@[y] == pre[x]@[y]);
                    if has_sym_edge(sub1, x, y) {
                        let w = choose|w: int|
                            0 <= w < sub1.len() && ((#[trigger] sub1[w]).0 == x && sub1[w].1 == y
                                || sub1[w].0 == y && sub1[w].1 == x);
                        assert(w < k ==> sub[w] == sub1[w]);
                        assert(has_sym_edge(sub, x, y));
                    } else {
                        if has_sym_edge(sub, x, y) {
                            let w = choose|w: int|
                                0 <= w < sub.len() && ((#[trigger] sub[w]).0 == x && sub[w].1 == y
                                    || sub[w].0 == y && sub[w].1 == x);
                            assert(sub1[w] == sub[w]);
                        }
                    }
                }
            }
        }
        k = k + 1;
    }
    proof {
        assert(edges.subrange(0, m as int) =~= edges);
    }
    // the diagonal is zero
    let mut i: usize = 0;
    while i < n
        invariant
            i <= n,
            n == g.spec_n_vertices(),
            edges == g.edges@,
            d@.len() == n,
            forall|x: int| 0 <= x < n ==> (#[trigger] d@[x])@.len() == n,
            forall|x: int, y: int|
                0 <= x < n && 0 <= y < n && x != y ==> (#[trigger] d@[x]@[y]) == (if has_sym_edge(
                    edges,
                    x,
                    y,
                ) {
                    1u64
                } else {
                    u64::MAX
                }),
            forall|x: int|
                i <= x < n ==> (#[trigger] d@[x]@[x]) == (if has_sym_edge(edges, x, x) {
                    1u64
                } else {
                    u64::MAX
                }),
            forall|x: int| 0 <= x < i ==> (#[trigger] d@[x]@[x]) == 0u64,
        decreases n - i,
    {
        d[i].set(i, 0);
        i = i + 1;
    }
    proof {
        assert forall|x: int, y: int| 0 <= x < n && 0 <= y < n implies (#[trigger] d@[x]@[y]) as int
            == fw(edges, 0, x, y) by {}
    }
    // the staged recurrence, one intermediate vertex at a time
    let mut k: usize = 0;
    while k < n
        invariant
            k <= n,
            n == g.spec_n_vertices(),
            edges == g.edges@,
            d@.len() == n,
            forall|x: int| 0 <= x < n ==> (#[trigger] d@[x])@.len() == n,
            forall|x: int, y: int|
                0 <= x < n && 0 <= y < n ==> (#[trigger] d@[x]@[y]) as int == fw(
                    edges,
                    k as int,
                    x,
                    y,
                ),
        decreases n - k,
    {
        let prev = copy_matrix(&d);
        let mut i: usize = 0;
        while i < n
            invariant
                i <= n,
                k < n,
                n == g.spec_n_vertices(),
                edges == g.edges@,
                d@.len() == n,
                prev@.len() == n,
                forall|x: int| 0 <= x < n ==> (#[trigger] d@[x])@.len() == n,
                forall|x: int| 0 <= x < n ==> (#[trigger] prev@[x])@.len() == n,
                forall|x: int, y: int|
                    0 <= x < n && 0 <= y < n ==> (#[trigger] prev@[x]@[y]) as int == fw(
                        edges,
                        k as int,
                        x,
                        y,
                    ),
                forall|x: int, y: int|
                    0 <= x < i && 0 <= y < n ==> (#[trigger] d@[x]@[y]) as int == fw(
                        edges,
                        k as int + 1,
                        x,
                        y,
                    ),
                forall|x: int, y: int|
                    i <= x < n && 0 <= y < n ==> (#[trigger] d@[x]@[y]) as int == fw(
                        edges,
                        k as int,
                        x,
                        y,
                    ),
            decreases n - i,
        {
            let mut j: usize = 0;
            while j < n
                invariant
                    j <= n,
                    i < n,
                    k < n,
                    n == g.spec_n_vertices(),
                    edges == g.edges@,
                    d@.len() == n,
                    prev@.len() == n,
                    forall|x: int| 0 <= x < n ==> (#[trigger] d@[x])@.len() == n,
                    forall|x: int| 0 <= x < n ==> (#[trigger] prev@[x])@.len() == n,
                    forall|x: int, y: int|
                        0 <= x < n && 0 <= y < n ==> (#[trigger] prev@[x]@[y]) as int == fw(
                            edges,
                            k as int,
                            x,
                            y,
                        ),
                    forall|x: int, y: int|
                        0 <= x < i && 0 <= y < n ==> (#[trigger] d@[x]@[y]) as int == fw(
                            edges,
                            k as int + 1,
                            x,
                            y,
                        ),
                    forall|y: int|
                        0 <= y < j ==> (#[trigger] d@[i as int]@[y]) as int == fw(
                            edges,
                            k as int + 1,
                            i as int,
                            y,
                        ),
                    forall|y: int|
                        j <= y < n ==> (#[trigger] d@[i as int]@[y]) as int == fw(
                            edges,
                            k as int,
                            i as int,
                            y,
                        ),
                    forall|x: int, y: int|
                        i < x < n && 0 <= y < n ==> (#[trigger] d@[x]@[y]) as int == fw(
                            edges,
                            k as int,
                            x,
                            y,
                        ),
                decreases n - j,
            {
                let p = prev[i][j];
                let a = prev[i][k];
                let b = prev[k][j];
                let s: u128 = (a as u128) + (b as u128);
                if s < (p as u128) {
                    d[i].set(j, s as u64);
                } else {
                    d[i].set(j, p);
                }
                j = j + 1;
            }
            i = i + 1;
        }
        k = k + 1;
    }
    d
}

/// The sum of all entries of a distance matrix.
pub fn apl_distance_sum(d: &Vec<Vec<u64>>) -> (r: u128)
    requires
        d@.len() <= 0x1_0000_0000,
        forall|i: int| 0 <= i < d@.len() ==> (#[trigger] d@[i])@.len() == d@.len(),
    ensures
        r == spec_matrix_sum(d@, d@.len() as int),
{
    let n = d.len();
    let mut total: u128 = 0;
    let mut i: usize = 0;
    while i < n
        invariant
            n == d@.len(),
            n <= 0x1_0000_0000,
            forall|x: int| 0 <= x < n ==> (#[trigger] d@[x])@.len() == n,
            i <= n,
            total == spec_matrix_sum(d@, i as int),
            0 <= total <= (i as int) * (n as int) * (u64::MAX as int),
        decreases n - i,
    {
        let row = &d[i];
        let mut j: usize = 0;
        let mut row_sum: u128 = 0;
        while j < n
            invariant
                n == row@.len(),
                j <= n,
                row_sum == spec_row_total(row@, j as int),
                0 <= row_sum <= (j as int) * (u64::MAX as int),
            decreases n - j,
        {
            proof {
                lemma_row_total_bound(row@, j as int);
            }
            row_sum = row_sum + (row[j] as u128);
            j = j + 1;
        }
        proof {
            lemma_row_total_bound(row@, n as int);
            lemma_sum_step_bound(i as int, n as int, total as int, row_sum as int);
        }
        total = total + row_sum;
        i = i + 1;
    }
    total
}

/// The sum of the first `j` entries of one row.
pub open spec fn spec_row_total(row: Seq<u64>, j: int) -> int
    decreases j,
{
    if j <= 0 {
        0
    } else {
        spec_row_total(row, j - 1) + row[j - 1]
    }
}

/// The sum of the first `i` rows of a square matrix.
pub open spec fn spec_matrix_sum(d: Seq<Vec<u64>>, i: int) -> int
    decreases i,
{
    if i <= 0 {
        0
    } else {
        spec_matrix_sum(d, i - 1) + spec_row_total(d[i - 1]@, d[i - 1]@.len() as int)
    }
}

/// A row prefix sum is bounded by its length times the largest entry.
proof fn lemma_row_total_bound(row: Seq<u64>, j: int)
    requires
        0 <= j,
    ensures
        0 <= spec_row_total(row, j) <= j * (u64::MAX as int),
    decreases j,
{
    if j > 0 {
        lemma_row_total_bound(row, j - 1);
        assert((j - 1) * (u64::MAX as int) + (u64::MAX as int) == j * (u64::MAX as int))
            by (nonlinear_arith);
    }
}

/// Accumulating one more bounded row keeps the running total within
/// `u128`.
proof fn lemma_sum_step_bound(i: int, n: int, total: int, row_sum: int)
    requires
        0 <= i < n,
        n <= 0x1_0000_0000,
        total <= i * n * (u64::MAX as int),
        0 <= total,
        0 <= row_sum <= n * (u64::MAX as int),
    ensures
        total + row_sum <= (i + 1) * n * (u64::MAX as int),
        total + row_sum <= u128::MAX,
{
    assert(i * n * (u64::MAX as int) + n * (u64::MAX as int) == (i + 1) * n * (u64::MAX as int))
        by (nonlinear_arith);
    assert((i + 1) * n * (u64::MAX as int) <= 0x1_0000_0000 * 0x1_0000_0000 * (u64::MAX as int))
        by (nonlinear_arith)
        requires
            0 <= i < n <= 0x1_0000_0000,
    ;
}

} // verus!
