//! Seed generation and a small splittable PRNG.
//!
//! The algorithms in this crate are deterministic given a seed; this module
//! supplies default seeds (through the `rand` crate) and a xoroshiro128+
//! generator whose state transition is fully specified.

use vstd::prelude::*;
use rand::distributions::uniform::{UniformInt, UniformSampler};

verus! {

/// David Stafford's "mix 13" variant of the final mixing step of
/// MurmurHash3: two xor-shift-add rounds and a final xor-shift.
pub open spec fn stafford_mix13_spec(x: u64) -> u64 {
    let x1 = (x ^ (x >> 30)).wrapping_add(0xBF58476D1CE4E5B9u64);
    let x2 = (x1 ^ (x1 >> 27)).wrapping_add(0x94D049BB133111EBu64);
    x2 ^ (x2 >> 31)
}

/// Mix a word so that nearby seeds produce unrelated generator states.
pub fn stafford_mix13(x: u64) -> (r: u64)
    ensures
        r == stafford_mix13_spec(x),
{
    let x1: u64 = (x ^ (x >> 30)).wrapping_add(0xBF58476D1CE4E5B9);
    let x2: u64 = (x1 ^ (x1 >> 27)).wrapping_add(0x94D049BB133111EB);
    x2 ^ (x2 >> 31)
}

/// The MurmurHash3 finalizer applied to a seed word.
pub open spec fn murmur_mix_spec(x: u64) -> u64 {
    let x1 = (x ^ (x >> 33)).wrapping_mul(0xff51afd7ed558ccdu64);
    let x2 = (x1 ^ (x1 >> 33)).wrapping_mul(0xc4ceb9fe1a85ec53u64);
    x2 ^ (x2 >> 33)
}

/// The golden-ratio increment used to split one seed into two state words.
pub open spec fn spec_phi() -> u64 {
    0x9E3779B97F4A7C15u64
}

/// The two state words derived from a seed.
pub open spec fn seeded_state(seed: u64) -> (u64, u64) {
    let mixed = murmur_mix_spec(seed);
    let s0 = stafford_mix13_spec(mixed.wrapping_add(spec_phi()));
    let s1 = stafford_mix13_spec(mixed.wrapping_add(spec_phi()).wrapping_add(spec_phi()));
    (s0, s1)
}

/// One xoroshiro128+ step: the drawn value and the next state.
pub open spec fn next_state(s0: u64, s1: u64) -> (u64, u64, u64) {
    let result = s0.wrapping_add(s1);
    let s1x = s1 ^ s0;
    let n0 = (((s0 << 24) | (s0 >> 40)) ^ s1x ^ (s1x << 16)) as u64;
    let n1 = ((s1x << 37) | (s1x >> 27)) as u64;
    (result, n0, n1)
}

/// A xoroshiro128+ generator: a deterministic stream of 64-bit values from
/// a 64-bit seed.
pub struct RandomGenerator {
    s0: u64,
    s1: u64,
}

impl RandomGenerator {
    pub closed spec fn spec_state(&self) -> (u64, u64) {
        (self.s0, self.s1)
    }

    /// Seed the generator, spreading the seed over both state words.
    pub fn new(seed: u64) -> (g: Self)
        ensures
            g.spec_state() == seeded_state(seed),
    {
        let mut seed: u64 = seed;
        // MurmurHash3 finalizer
        seed = seed ^ (seed >> 33);
        seed = seed.wrapping_mul(0xff51afd7ed558ccd);
        seed = seed ^ (seed >> 33);
        seed = seed.wrapping_mul(0xc4ceb9fe1a85ec53);
        seed = seed ^ (seed >> 33);

        seed = seed.wrapping_add(0x9E3779B97F4A7C15);
        let s0 = stafford_mix13(seed);
        seed = seed.wrapping_add(0x9E3779B97F4A7C15);
        let s1 = stafford_mix13(seed);
        Self { s0, s1 }
    }

    /// Draw a value below `len`: the next draw reduced modulo `len`.
    pub fn next_below(&mut self, len: usize) -> (r: usize)
        requires
            len > 0,
        ensures
            r < len,
            ({
                let st = next_state(old(self).spec_state().0, old(self).spec_state().1);
                &&& r == st.0 % (len as u64)
                &&& final(self).spec_state().0 == st.1
                &&& final(self).spec_state().1 == st.2
            }),
    {
        let v = self.next();
        (v % (len as u64)) as usize
    }

    /// Draw the next value and advance the state.
    pub fn next(&mut self) -> (r: u64)
        ensures
            ({
                let st = next_state(old(self).spec_state().0, old(self).spec_state().1);
                &&& r == st.0
                &&& final(self).spec_state().0 == st.1
                &&& final(self).spec_state().1 == st.2
            }),
    {
        let s0 = self.s0;
        let mut s1 = self.s1;
        let result = s0.wrapping_add(s1);
        s1 = s1 ^ s0;
        self.s0 = ((s0 << 24) | (s0 >> 40)) ^ s1 ^ (s1 << 16);
        self.s1 = (s1 << 37) | (s1 >> 27);
        result
    }
}

/// Relies on `rand::random::<u64>()` for one machine-entropy word. Nothing
/// is promised of the value. The thread-local generator's first use can
/// abort if the operating system's entropy source fails — an
/// environmental failure of the same kind as running out of memory.
#[verifier::external_body]
fn random_u64() -> u64 {
    rand::random::<u64>()
}

/// Relies on `rand`'s `UniformInt::<usize>::sample_single` with
/// `thread_rng`, which panics when `low >= high` and otherwise returns a
/// value drawn from `[low, high)`. As above, the thread-local generator's
/// first use can abort if the operating system's entropy source fails.
#[verifier::external_body]
pub(crate) fn sample_index(low: usize, high: usize) -> (r: usize)
    requires
        low < high,
    ensures
        low <= r < high,
{
    UniformInt::<usize>::sample_single(low, high, &mut rand::thread_rng())
}

/// A fresh default seed: one entropy word stirred through the generator.
/// Callers that need reproducibility pass an explicit seed instead.
pub fn random_seed() -> u64 {
    let mut g = RandomGenerator::new(random_u64());
    g.next()
}

} // verus!
