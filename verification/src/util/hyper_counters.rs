//! HyperLogLog cardinality sketches.
//!
//! A sketch with index width `b` keeps `m = 2^b` registers. An observation
//! is hashed, mixed with the sketch's seed through the Jenkins mixer, and
//! then the low `b` bits pick a register while the trailing-zero count of
//! the remaining bits (plus one) is max-ed into it. Two register backings
//! share this contract: one byte per register, or bit-packed registers in a
//! [`BitArray`](crate::util::bit_array::BitArray).
//!
//! Estimation from the registers is floating-point arithmetic over the
//! register values that `state` exposes; it lives outside this crate's
//! verified core.

use vstd::prelude::*;
use vstd::std_specs::bits::{axiom_u64_trailing_zeros, u64_trailing_zeros};
use vstd::arithmetic::power2::pow2;
use crate::util::bit_array::{
    init_right_mask, lemma_low_mask_injective, low_mask, spec_max_u8, zip_max, BitArray,
};
use crate::util::{jenkins, jenkins_spec};
use crate::util::random_numbs::random_seed;
use core::hash::Hasher;
use rustc_hash::FxHasher;

verus! {

/// The index width of a sketch: `m = 2^b` registers, `4 <= b <= 15`.
#[derive(Clone, Copy, Debug, PartialEq, Eq, Structural)]
pub enum B {
    B4,
    B5,
    B6,
    B7,
    B8,
    B9,
    B10,
    B11,
    B12,
    B13,
    B14,
    B15,
}

impl B {
    /// The number of index bits.
    pub open spec fn bits_spec(self) -> u64 {
        match self {
            B::B4 => 4u64,
            B::B5 => 5u64,
            B::B6 => 6u64,
            B::B7 => 7u64,
            B::B8 => 8u64,
            B::B9 => 9u64,
            B::B10 => 10u64,
            B::B11 => 11u64,
            B::B12 => 12u64,
            B::B13 => 13u64,
            B::B14 => 14u64,
            B::B15 => 15u64,
        }
    }

    /// The number of registers, `2^b`.
    pub open spec fn m_spec(self) -> usize {
        match self {
            B::B4 => 16usize,
            B::B5 => 32usize,
            B::B6 => 64usize,
            B::B7 => 128usize,
            B::B8 => 256usize,
            B::B9 => 512usize,
            B::B10 => 1024usize,
            B::B11 => 2048usize,
            B::B12 => 4096usize,
            B::B13 => 8192usize,
            B::B14 => 16384usize,
            B::B15 => 32768usize,
        }
    }

    /// The number of index bits.
    pub fn bits(self) -> (r: u64)
        ensures
            r == self.bits_spec(),
    {
        match self {
            B::B4 => 4,
            B::B5 => 5,
            B::B6 => 6,
            B::B7 => 7,
            B::B8 => 8,
            B::B9 => 9,
            B::B10 => 10,
            B::B11 => 11,
            B::B12 => 12,
            B::B13 => 13,
            B::B14 => 14,
            B::B15 => 15,
        }
    }

    /// The number of registers, `2^b`.
    pub fn m(self) -> (r: usize)
        ensures
            r == self.m_spec(),
            r == pow2(self.bits_spec() as nat),
    {
        proof {
            vstd::arithmetic::power2::lemma2_to64();
        }
        match self {
            B::B4 => 16,
            B::B5 => 32,
            B::B6 => 64,
            B::B7 => 128,
            B::B8 => 256,
            B::B9 => 512,
            B::B10 => 1024,
            B::B11 => 2048,
            B::B12 => 4096,
            B::B13 => 8192,
            B::B14 => 16384,
            B::B15 => 32768,
        }
    }
}

/// What the `rustc-hash` hasher computes for one 64-bit word: a function
/// of the word alone.
pub uninterp spec fn fx_hash_of(v: u64) -> u64;

/// Relies on rustc-hash's `FxHasher`: default-initialized, fed one word
/// with `write_u64` and read back with `finish`, its result depends on the
/// input word alone.
#[verifier::external_body]
fn fx_hash_u64(v: u64) -> (r: u64)
    ensures
        r == fx_hash_of(v),
{
    let mut h = FxHasher::default();
    h.write_u64(v);
    h.finish()
}

/// The register an observation with mixed hash `x` lands in: the low `b`
/// bits of `x`.
pub open spec fn hll_index(x: u64, b: B) -> int {
    (x & ((b.m_spec() - 1) as u64)) as int
}

/// The rank recorded for mixed hash `x`: the 1-based position of the
/// lowest set bit of `x` with its `b` index bits removed.
pub open spec fn hll_rank(x: u64, b: B) -> u64 {
    (u64_trailing_zeros(x >> b.bits_spec()) + 1) as u64
}

/// One observation applied to a register sequence: the landing register
/// grows to the observation's rank, saturated at `cap` (the largest value
/// a backing register can hold); all other registers are untouched.
pub open spec fn hll_update(regs: Seq<u8>, x: u64, b: B, cap: u8) -> Seq<u8> {
    let j = hll_index(x, b);
    let rank = hll_rank(x, b);
    let v = if rank > cap {
        cap
    } else {
        rank as u8
    };
    regs.update(j, spec_max_u8(regs[j], v))
}

/// The index of any mixed hash is within the register array.
proof fn lemma_hll_index_bound(x: u64, b: B)
    ensures
        0 <= hll_index(x, b) < b.m_spec(),
{
    let mm = (b.m_spec() - 1) as u64;
    assert(x & mm <= mm) by (bit_vector);
}

/// The cardinality-sketch capability shared by the byte-backed and the
/// bit-packed register arrays: both observe values and merge by register
/// maximum, with identical index/rank arithmetic.
pub trait HyperLogLogCounter: Sized {
    spec fn counter_wf(&self) -> bool;

    spec fn spec_regs(&self) -> Seq<u8>;

    spec fn spec_b(&self) -> B;

    spec fn spec_seed(&self) -> u64;

    /// The largest value a register of this backing can hold.
    spec fn spec_rank_cap(&self) -> u8;

    /// Update the sketch with one observation. Reports whether the
    /// observation's rank fitted this backing's register cap; a rank
    /// beyond the cap is a sketch-parameter violation (the stored value
    /// saturates at the cap, and the backings may diverge on it).
    fn register(&mut self, v: u64) -> (fitted: bool)
        requires
            old(self).counter_wf(),
        ensures
            final(self).counter_wf(),
            final(self).spec_b() == old(self).spec_b(),
            final(self).spec_seed() == old(self).spec_seed(),
            final(self).spec_rank_cap() == old(self).spec_rank_cap(),
            final(self).spec_regs() == hll_update(
                old(self).spec_regs(),
                jenkins_spec(fx_hash_of(v), old(self).spec_seed()),
                old(self).spec_b(),
                old(self).spec_rank_cap(),
            ),
            fitted == (hll_rank(
                jenkins_spec(fx_hash_of(v), old(self).spec_seed()),
                old(self).spec_b(),
            ) <= old(self).spec_rank_cap()),
    ;

    /// Element-wise register maximum from `self` into `other`; reports
    /// whether any register of `other` changed.
    fn union_onto(&self, other: &mut Self) -> (changed: bool)
        requires
            self.counter_wf(),
            old(other).counter_wf(),
            self.spec_b() == old(other).spec_b(),
            self.spec_rank_cap() == old(other).spec_rank_cap(),
        ensures
            final(other).counter_wf(),
            final(other).spec_b() == old(other).spec_b(),
            final(other).spec_seed() == old(other).spec_seed(),
            final(other).spec_rank_cap() == old(other).spec_rank_cap(),
            final(other).spec_regs() == zip_max(self.spec_regs(), old(other).spec_regs()),
            changed == (final(other).spec_regs() != old(other).spec_regs()),
    ;

    /// Overwrite `self` with `other`'s parameters and registers.
    fn clone_from(&mut self, other: &Self)
        requires
            other.counter_wf(),
        ensures
            final(self).counter_wf(),
            final(self).spec_b() == other.spec_b(),
            final(self).spec_seed() == other.spec_seed(),
            final(self).spec_rank_cap() == other.spec_rank_cap(),
            final(self).spec_regs() == other.spec_regs(),
    ;

    /// All register values, in order.
    fn state(&self) -> (r: Vec<u8>)
        requires
            self.counter_wf(),
        ensures
            r@ == self.spec_regs(),
    ;
}

/// Law: byte-backed and compact sketches stay in lock-step. If the two
/// register sequences are equal, observing the same value under the same
/// `b` and seed leaves them equal — provided the observation's rank fits
/// the compact backing's register cap — and merging equal pairs by
/// `union_onto` leaves equal results.
pub proof fn lemma_sketch_equivalence(
    h: Seq<u8>,
    c: Seq<u8>,
    h2: Seq<u8>,
    c2: Seq<u8>,
    x: u64,
    b: B,
    cap_h: u8,
    cap_c: u8,
)
    requires
        h == c,
        h2 == c2,
        hll_rank(x, b) <= cap_c,
        cap_c <= cap_h,
    ensures
        hll_update(h, x, b, cap_h) == hll_update(c, x, b, cap_c),
        zip_max(h, h2) == zip_max(c, c2),
{
}

/// A HyperLogLog sketch with one byte per register.
pub struct HyperLogLog {
    registers: Vec<u8>,
    b: B,
    m_minus_1: u64,
    seed: u64,
}

impl HyperLogLog {
    /// A fresh sketch with `2^b` zero registers and the given seed.
    pub fn new_with_seed(b: B, seed: u64) -> (s: Self)
        ensures
            s.counter_wf(),
            s.spec_b() == b,
            s.spec_seed() == seed,
            s.spec_rank_cap() == 255u8,
            s.spec_regs() == Seq::new(b.m_spec() as nat, |i: int| 0u8),
    {
        let m = b.m();
        let mut registers: Vec<u8> = Vec::new();
        let mut k: usize = 0;
        while k < m
            invariant
                k <= m,
                registers@.len() == k,
                forall|i: int| 0 <= i < k ==> registers@[i] == 0u8,
            decreases m - k,
        {
            registers.push(0);
            k = k + 1;
        }
        let s = Self { registers, b, m_minus_1: (m as u64) - 1, seed };
        proof {
            assert(s.spec_regs() =~= Seq::new(b.m_spec() as nat, |i: int| 0u8));
        }
        s
    }

    /// A fresh sketch with `2^b` zero registers and a random seed.
    pub fn new(b: B) -> (s: Self)
        ensures
            s.counter_wf(),
            s.spec_b() == b,
            s.spec_rank_cap() == 255u8,
            s.spec_regs() == Seq::new(b.m_spec() as nat, |i: int| 0u8),
    {
        let seed = random_seed();
        Self::new_with_seed(b, seed)
    }
}

impl HyperLogLogCounter for HyperLogLog {
    closed spec fn counter_wf(&self) -> bool {
        &&& self.registers@.len() == self.b.m_spec()
        &&& self.m_minus_1 == (self.b.m_spec() - 1) as u64
    }

    closed spec fn spec_regs(&self) -> Seq<u8> {
        self.registers@
    }

    closed spec fn spec_b(&self) -> B {
        self.b
    }

    closed spec fn spec_seed(&self) -> u64 {
        self.seed
    }

    closed spec fn spec_rank_cap(&self) -> u8 {
        255u8
    }

    fn register(&mut self, v: u64) -> (fitted: bool) {
        let x = jenkins(fx_hash_u64(v), self.seed);
        proof {
            lemma_hll_index_bound(x, self.b);
        }
        let j = (x & self.m_minus_1) as usize;
        proof {
            assert(j == hll_index(x, self.b));
        }
        let r = (x >> self.b.bits()).trailing_zeros();
        proof {
            axiom_u64_trailing_zeros(x >> self.b.bits_spec());
        }
        let val = (r + 1) as u8;
        let cur = self.registers[j];
        let mx = if cur > val {
            cur
        } else {
            val
        };
        self.registers.set(j, mx);
        proof {
            assert(val == hll_rank(x, self.b));
            assert(self.registers@ =~= hll_update(
                old(self).registers@,
                x,
                self.b,
                255u8,
            ));
        }
        true
    }

    fn union_onto(&self, other: &mut Self) -> (changed: bool) {
        let ghost orig = other.registers@;
        let m = self.registers.len();
        let mut changed = false;
        let mut i: usize = 0;
        while i < m
            invariant
                other.counter_wf(),
                other.b == old(other).b,
                other.seed == old(other).seed,
                self.counter_wf(),
                self.b == old(other).b,
                m == self.registers@.len(),
                orig.len() == m,
                other.registers@.len() == m,
                i <= m,
                forall|k: int| 0 <= k < i ==> other.registers@[k] == zip_max(self.registers@, orig)[k],
                forall|k: int| i <= k < m ==> other.registers@[k] == orig[k],
                changed == exists|k: int| 0 <= k < i && other.registers@[k] != orig[k],
            decreases m - i,
        {
            let s = self.registers[i];
            let o = other.registers[i];
            let mx = if s > o {
                s
            } else {
                o
            };
            other.registers.set(i, mx);
            if mx != o {
                changed = true;
                proof {
                    assert(other.registers@[i as int] != orig[i as int]);
                }
            }
            i = i + 1;
        }
        proof {
            assert(other.registers@ =~= zip_max(self.registers@, orig));
            if !changed {
                assert(other.registers@ =~= orig);
            } else {
                let k = choose|k: int| 0 <= k < m && other.registers@[k] != orig[k];
                assert(other.registers@[k] != orig[k]);
            }
        }
        changed
    }

    fn clone_from(&mut self, other: &Self) {
        let mut registers: Vec<u8> = Vec::new();
        let m = other.registers.len();
        let mut k: usize = 0;
        while k < m
            invariant
                k <= m,
                m == other.registers@.len(),
                registers@ == other.registers@.subrange(0, k as int),
            decreases m - k,
        {
            registers.push(other.registers[k]);
            proof {
                assert(registers@ =~= other.registers@.subrange(0, k + 1));
            }
            k = k + 1;
        }
        proof {
            assert(registers@ =~= other.registers@);
        }
        self.registers = registers;
        self.b = other.b;
        self.m_minus_1 = other.m_minus_1;
        self.seed = other.seed;
    }

    fn state(&self) -> (r: Vec<u8>) {
        let mut r: Vec<u8> = Vec::new();
        let m = self.registers.len();
        let mut k: usize = 0;
        while k < m
            invariant
                k <= m,
                m == self.registers@.len(),
                r@ == self.registers@.subrange(0, k as int),
            decreases m - k,
        {
            r.push(self.registers[k]);
            proof {
                assert(r@ =~= self.registers@.subrange(0, k + 1));
            }
            k = k + 1;
        }
        proof {
            assert(r@ =~= self.registers@);
        }
        r
    }
}

/// Ceiling of the base-2 logarithm: the smallest `k` with `2^k >= n`
/// (0 for `n <= 1`).
pub open spec fn clog2(n: int) -> int
    decreases n,
{
    if n <= 1 {
        0
    } else {
        1 + clog2(n / 2 + n % 2)
    }
}

/// The ceiling logarithm is never negative.
proof fn lemma_clog2_nonneg(n: int)
    ensures
        clog2(n) >= 0,
    decreases n,
{
    if n > 1 {
        lemma_clog2_nonneg(n / 2 + n % 2);
    }
}

/// `clog2` never exceeds an exponent whose power already covers `n`.
proof fn lemma_clog2_le(n: int, k: nat)
    requires
        n <= pow2(k),
    ensures
        clog2(n) <= k,
    decreases k,
{
    if n <= 1 {
    } else {
        assert(k > 0) by {
            if k == 0 {
                assert(pow2(0) == 1) by {
                    vstd::arithmetic::power2::lemma2_to64();
                }
            }
        }
        assert(pow2(k) == 2 * pow2((k - 1) as nat)) by {
            vstd::arithmetic::power2::lemma_pow2_unfold(k);
        }
        lemma_clog2_le(n / 2 + n % 2, (k - 1) as nat);
    }
}

/// The register width the compact sketch uses for an expected number of
/// distinct items: `max(5, clog2(clog2(n)))` bits.
pub open spec fn register_size_spec(n: usize) -> u8 {
    if clog2(clog2(n as int)) < 5 {
        5u8
    } else {
        clog2(clog2(n as int)) as u8
    }
}

/// Ceiling base-2 logarithm of `n`.
fn ceil_log2(n: usize) -> (r: u32)
    ensures
        r == clog2(n as int),
        r <= 64,
{
    proof {
        vstd::arithmetic::power2::lemma2_to64();
        vstd::arithmetic::power2::lemma2_to64_rest();
        lemma_clog2_le(n as int, 64);
        lemma_clog2_nonneg(n as int);
    }
    let mut k: u32 = 0;
    let mut m: usize = n;
    while m > 1
        invariant
            clog2(n as int) == k + clog2(m as int),
            clog2(n as int) <= 64,
            k <= 64,
            m <= n,
        decreases m,
    {
        proof {
            lemma_clog2_nonneg((m / 2 + m % 2) as int);
        }
        m = m / 2 + m % 2;
        k = k + 1;
    }
    proof {
        lemma_clog2_nonneg(m as int);
    }
    k
}

/// The compact register width for an expected number of distinct items:
/// at least 5 bits, and wide enough that ranks up to `log2(log2(n))` fit.
pub fn register_size(n: usize) -> (r: u8)
    ensures
        r == register_size_spec(n),
        5 <= r < 8,
{
    let c1 = ceil_log2(n);
    proof {
        assert(pow2(7) == 128) by {
            vstd::arithmetic::power2::lemma2_to64();
        }
        lemma_clog2_le(c1 as int, 7);
        lemma_clog2_nonneg(c1 as int);
    }
    let c2 = ceil_log2(c1 as usize);
    if c2 < 5 {
        5
    } else {
        c2 as u8
    }
}

/// A HyperLogLog sketch whose registers are bit-packed to the width needed
/// for the expected cardinality. Register contents are identical to the
/// byte-backed sketch under the same seed, as long as observed ranks fit
/// the packed width; a rank beyond the width saturates at the largest
/// representable value.
pub struct CompactHyperLogLog {
    registers: BitArray,
    b: B,
    m_minus_1: u64,
    seed: u64,
}

impl CompactHyperLogLog {
    /// A fresh bit-packed sketch sized for `expected_elements` distinct
    /// items, with the given seed.
    pub fn new_with_seed(b: B, expected_elements: usize, seed: u64) -> (s: Self)
        ensures
            s.counter_wf(),
            s.spec_b() == b,
            s.spec_seed() == seed,
            s.spec_rank_cap() == low_mask(register_size_spec(expected_elements)),
            s.spec_regs() == Seq::new(b.m_spec() as nat, |i: int| 0u8),
    {
        let rsize = register_size(expected_elements);
        let m = b.m();
        proof {
            assert((rsize as int) * (m as int) + 7 <= 8 * 32768) by (nonlinear_arith)
                requires
                    rsize < 8,
                    m <= 32768,
            ;
        }
        let registers = BitArray::new(rsize, m);
        let s = Self { registers, b, m_minus_1: (m as u64) - 1, seed };
        proof {
            assert(s.spec_regs() =~= Seq::new(b.m_spec() as nat, |i: int| 0u8));
        }
        s
    }

    /// A fresh bit-packed sketch with a random seed.
    pub fn new(b: B, expected_elements: usize) -> (s: Self)
        ensures
            s.counter_wf(),
            s.spec_b() == b,
            s.spec_rank_cap() == low_mask(register_size_spec(expected_elements)),
            s.spec_regs() == Seq::new(b.m_spec() as nat, |i: int| 0u8),
    {
        let seed = random_seed();
        Self::new_with_seed(b, expected_elements, seed)
    }
}

impl HyperLogLogCounter for CompactHyperLogLog {
    closed spec fn counter_wf(&self) -> bool {
        &&& self.registers.wf()
        &&& self.registers@.len() == self.b.m_spec()
        &&& self.m_minus_1 == (self.b.m_spec() - 1) as u64
    }

    closed spec fn spec_regs(&self) -> Seq<u8> {
        self.registers@
    }

    closed spec fn spec_b(&self) -> B {
        self.b
    }

    closed spec fn spec_seed(&self) -> u64 {
        self.seed
    }

    closed spec fn spec_rank_cap(&self) -> u8 {
        low_mask(self.registers.spec_register_size())
    }

    fn register(&mut self, v: u64) -> (fitted: bool) {
        let x = jenkins(fx_hash_u64(v), self.seed);
        proof {
            lemma_hll_index_bound(x, self.b);
            self.registers.lemma_wf_register_size();
        }
        let j = (x & self.m_minus_1) as usize;
        proof {
            assert(j == hll_index(x, self.b));
        }
        let r = (x >> self.b.bits()).trailing_zeros();
        proof {
            axiom_u64_trailing_zeros(x >> self.b.bits_spec());
        }
        let cap = init_right_mask(self.registers.register_size() as usize);
        let rank = r + 1;
        let fitted = rank <= cap as u32;
        let val = if rank > cap as u32 {
            cap
        } else {
            rank as u8
        };
        let cur = self.registers.get(j);
        let mx = if cur > val {
            cur
        } else {
            val
        };
        proof {
            self.registers.lemma_view_masked();
            let rs = self.registers.spec_register_size();
            assert(cur & low_mask(rs) == cur);
            lemma_le_mask(val, cur, mx, rs);
        }
        self.registers.set(j, mx);
        proof {
            assert(val == (if hll_rank(x, self.b) > low_mask(
                old(self).registers.spec_register_size(),
            ) {
                low_mask(old(self).registers.spec_register_size())
            } else {
                hll_rank(x, self.b) as u8
            }));
            assert(self.registers@ =~= hll_update(
                old(self).registers@,
                x,
                self.b,
                low_mask(old(self).registers.spec_register_size()),
            ));
        }
        fitted
    }

    fn union_onto(&self, other: &mut Self) -> (changed: bool) {
        proof {
            self.registers.lemma_wf_register_size();
            old(other).registers.lemma_wf_register_size();
            lemma_low_mask_injective(
                self.registers.spec_register_size(),
                old(other).registers.spec_register_size(),
            );
        }
        self.registers.max(&mut other.registers)
    }

    fn clone_from(&mut self, other: &Self) {
        self.registers.clone_from(&other.registers);
        self.b = other.b;
        self.m_minus_1 = other.m_minus_1;
        self.seed = other.seed;
    }

    fn state(&self) -> (r: Vec<u8>) {
        self.registers.iter()
    }
}

/// A value at most the low-bits mask, max-ed with a masked value, stays
/// within the mask.
proof fn lemma_le_mask(val: u8, cur: u8, mx: u8, r: u8)
    by (bit_vector)
    requires
        r < 8,
        val <= ((1u16 << (r as u16)) - 1) as u8,
        cur & (((1u16 << (r as u16)) - 1) as u8) == cur,
        mx == (if cur > val {
            cur
        } else {
            val
        }),
    ensures
        mx & (((1u16 << (r as u16)) - 1) as u8) == mx,
{
}

} // verus!
