//! The HyperBall update round.
//!
//! HyperBall keeps one cardinality sketch per vertex. Each synchronous
//! round rebuilds `next[v]` as the union of `counters[v]` with the
//! counters of `v`'s out-neighbours, reading only the previous round's
//! snapshot, and reports whether anything changed — the driver stops when
//! a whole round changes nothing. The accumulation of path-length terms
//! from the per-round cardinality estimates is floating-point work over
//! the register states that `state` exposes, and lives outside the
//! verified core.

use vstd::prelude::*;
use crate::util::bit_array::zip_max;
use crate::util::hyper_counters::HyperLogLogCounter;

verus! {

/// The register state of the ball grown from `base` by absorbing, in
/// order, the counters of the vertices in `row`.
pub open spec fn ball_regs(cregs: Seq<Seq<u8>>, row: Seq<usize>, base: Seq<u8>) -> Seq<u8>
    decreases row.len(),
{
    if row.len() == 0 {
        base
    } else {
        zip_max(cregs[row.last() as int], ball_regs(cregs, row.drop_last(), base))
    }
}

/// All sketches of a family agree on index width and register cap, and
/// are well-formed.
pub open spec fn counters_uniform<H: HyperLogLogCounter>(cs: Seq<H>) -> bool {
    &&& forall|i: int| 0 <= i < cs.len() ==> (#[trigger] cs[i]).counter_wf()
    &&& forall|i: int, j: int|
        0 <= i < cs.len() && 0 <= j < cs.len() ==> (#[trigger] cs[i]).spec_b() == (
        #[trigger] cs[j]).spec_b() && cs[i].spec_rank_cap() == cs[j].spec_rank_cap()
}

/// One synchronous HyperBall round: for every vertex `v`, `next[v]`
/// becomes `counters[v]` unioned with `counters[w]` for each out-neighbour
/// `w` of `v`, all read from the same snapshot. Reports whether any
/// register anywhere grew.
pub fn hyper_ball_round<H: HyperLogLogCounter>(
    rows: &Vec<Vec<usize>>,
    counters: &Vec<H>,
    next: &mut Vec<H>,
) -> (modified: bool)
    requires
        rows@.len() == counters@.len(),
        old(next)@.len() == counters@.len(),
        counters_uniform(counters@),
        counters@.len() > 0 ==> counters_uniform(old(next)@) && counters@[0].spec_b() == old(
            next,
        )@[0].spec_b() && counters@[0].spec_rank_cap() == old(next)@[0].spec_rank_cap(),
        forall|v: int, k: int|
            0 <= v < rows@.len() && 0 <= k < rows@[v]@.len() ==> #[trigger] rows@[v]@[k]
                < counters@.len(),
    ensures
        final(next)@.len() == counters@.len(),
        counters_uniform(final(next)@),
        forall|v: int|
            0 <= v < counters@.len() ==> (#[trigger] final(next)@[v]).spec_regs() == ball_regs(
                Seq::new(counters@.len(), |i: int| counters@[i].spec_regs()),
                rows@[v]@,
                counters@[v].spec_regs(),
            ),
        forall|v: int|
            0 <= v < counters@.len() ==> (#[trigger] final(next)@[v]).spec_b() == counters@[
                v
            ].spec_b() && final(next)@[v].spec_rank_cap() == counters@[v].spec_rank_cap(),
        modified == exists|v: int|
            0 <= v < counters@.len() && (#[trigger] final(next)@[v]).spec_regs() != counters@[
                v
            ].spec_regs(),
{
    let ghost cregs = Seq::new(counters@.len(), |i: int| counters@[i].spec_regs());
    let n = counters.len();
    let mut modified = false;
    let mut v: usize = 0;
    while v < n
        invariant
            n == counters@.len(),
            rows@.len() == n,
            next@.len() == n,
            counters_uniform(counters@),
            cregs == Seq::new(counters@.len(), |i: int| counters@[i].spec_regs()),
            forall|y: int, k: int|
                0 <= y < rows@.len() && 0 <= k < rows@[y]@.len() ==> #[trigger] rows@[y]@[k] < n,
            v <= n,
            forall|w: int|
                0 <= w < v ==> (#[trigger] next@[w]).spec_regs() == ball_regs(
                    cregs,
                    rows@[w]@,
                    counters@[w].spec_regs(),
                ),
            forall|w: int|
                0 <= w < v ==> (#[trigger] next@[w]).counter_wf() && next@[w].spec_b()
                    == counters@[w].spec_b() && next@[w].spec_rank_cap() == counters@[
                    w
                ].spec_rank_cap(),
            forall|w: int|
                v <= w < n ==> (#[trigger] next@[w]).counter_wf() && next@[w].spec_b()
                    == counters@[w].spec_b() && next@[w].spec_rank_cap() == counters@[
                    w
                ].spec_rank_cap(),
            modified == exists|w: int|
                0 <= w < v && (#[trigger] next@[w]).spec_regs() != counters@[w].spec_regs(),
        decreases n - v,
    {
        let ghost pre_next = next@;
        let row = &rows[v];
        let len = row.len();
        let nv = vstd::std_specs::vec::vec_index_mut(next, v);
        nv.clone_from(&counters[v]);
        let mut k: usize = 0;
        while k < len
            invariant
                n == counters@.len(),
                rows@.len() == n,
                v < n,
                len == row@.len(),
                (*row)@ == rows@[v as int]@,
                counters_uniform(counters@),
                cregs == Seq::new(counters@.len(), |i: int| counters@[i].spec_regs()),
                forall|j: int| 0 <= j < len ==> row@[j] < n,
                k <= len,
                nv.counter_wf(),
                nv.spec_b() == counters@[v as int].spec_b(),
                nv.spec_rank_cap() == counters@[v as int].spec_rank_cap(),
                nv.spec_regs() == ball_regs(
                    cregs,
                    row@.subrange(0, k as int),
                    counters@[v as int].spec_regs(),
                ),
            decreases len - k,
        {
            let w = row[k];
            counters[w].union_onto(nv);
            proof {
                assert(row@.subrange(0, k + 1).drop_last() =~= row@.subrange(0, k as int));
                assert(nv.spec_regs() == ball_regs(
                    cregs,
                    row@.subrange(0, k + 1),
                    counters@[v as int].spec_regs(),
                ));
            }
            k = k + 1;
        }
        proof {
            assert(row@.subrange(0, len as int) =~= row@);
        }
        let changed = {
            let a = nv.state();
            let b = counters[v].state();
            !vecs_equal(&a, &b)
        };
        if changed {
            modified = true;
        }
        proof {
            assert(next@ == pre_next.update(v as int, *final(nv)));
            if changed {
                assert(next@[v as int].spec_regs() != counters@[v as int].spec_regs());
            } else {
                assert(next@[v as int].spec_regs() == counters@[v as int].spec_regs());
            }
            assert forall|w: int|
                0 <= w < v + 1 && (#[trigger] next@[w]).spec_regs() != counters@[
                    w
                ].spec_regs() implies (modified || changed) by {}
            if modified || changed {
                if changed {
                    assert(next@[v as int].spec_regs() != counters@[v as int].spec_regs());
                } else {
                    let w = choose|w: int|
                        0 <= w < v && (#[trigger] pre_next[w]).spec_regs() != counters@[
                            w
                        ].spec_regs();
                    assert(next@[w].spec_regs() != counters@[w].spec_regs());
                }
            }
        }
        v = v + 1;
    }
    modified
}

/// Whether two byte vectors hold the same values.
fn vecs_equal(a: &Vec<u8>, b: &Vec<u8>) -> (r: bool)
    ensures
        r == (a@ == b@),
{
    if a.len() != b.len() {
        proof {
            assert(a@ != b@);
        }
        return false;
    }
    let n = a.len();
    let mut i: usize = 0;
    while i < n
        invariant
            n == a@.len(),
            n == b@.len(),
            i <= n,
            forall|k: int| 0 <= k < i ==> a@[k] == b@[k],
        decreases n - i,
    {
        if a[i] != b[i] {
            return false;
        }
        i = i + 1;
    }
    proof {
        assert(a@ =~= b@);
    }
    true
}

} // verus!
