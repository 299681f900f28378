//! Shared utilities: the packed register array, the disjoint-set family,
//! HyperLogLog counters, the Jenkins mixer and a small PRNG.

pub mod bit_array;
pub mod disjoint_set;
pub mod hyper_counters;
pub mod random_numbs;
pub mod small_hash_map;

use vstd::prelude::*;

verus! {

/// One full pass of the Jenkins lookup3-style 64-bit mixer: ten triples of
/// subtract / xor / shift rounds over the state `(a, b, c)`, seeded with the
/// golden-ratio constant. The result is a deterministic function of
/// `(x, seed)`.
pub open spec fn jenkins_spec(x: u64, seed: u64) -> u64 {
    let a0: u64 = seed.wrapping_add(x);
    let b0: u64 = seed;
    let c0: u64 = 0x9e3779b97f4a7c13;
    let a1: u64 = a0.wrapping_sub(b0).wrapping_sub(c0) ^ (c0 >> 43);
    let b1: u64 = b0.wrapping_sub(c0).wrapping_sub(a1) ^ (a1 << 9);
    let c1: u64 = c0.wrapping_sub(a1).wrapping_sub(b1) ^ (b1 >> 8);
    let a2: u64 = a1.wrapping_sub(b1).wrapping_sub(c1) ^ (c1 >> 38);
    let b2: u64 = b1.wrapping_sub(c1).wrapping_sub(a2) ^ (a2 << 23);
    let c2: u64 = c1.wrapping_sub(a2).wrapping_sub(b2) ^ (b2 >> 5);
    let a3: u64 = a2.wrapping_sub(b2).wrapping_sub(c2) ^ (c2 >> 35);
    let b3: u64 = b2.wrapping_sub(c2).wrapping_sub(a3) ^ (a3 << 49);
    let c3: u64 = c2.wrapping_sub(a3).wrapping_sub(b3) ^ (b3 >> 11);
    let a4: u64 = a3.wrapping_sub(b3).wrapping_sub(c3) ^ (c3 >> 12);
    let b4: u64 = b3.wrapping_sub(c3).wrapping_sub(a4) ^ (a4 << 18);
    let c4: u64 = c3.wrapping_sub(a4).wrapping_sub(b4) ^ (b4 >> 22);
    c4
}

/// Mix a 64-bit hash with a seed through the Jenkins mixer.
pub fn jenkins(x: u64, seed: u64) -> (r: u64)
    ensures
        r == jenkins_spec(x, seed),
{
    let mut a: u64 = seed.wrapping_add(x);
    let mut b: u64 = seed;
    let mut c: u64 = 0x9e3779b97f4a7c13;
    a = a.wrapping_sub(b);
    a = a.wrapping_sub(c);
    a = a ^ (c >> 43);
    b = b.wrapping_sub(c);
    b = b.wrapping_sub(a);
    b = b ^ (a << 9);
    c = c.wrapping_sub(a);
    c = c.wrapping_sub(b);
    c = c ^ (b >> 8);
    a = a.wrapping_sub(b);
    a = a.wrapping_sub(c);
    a = a ^ (c >> 38);
    b = b.wrapping_sub(c);
    b = b.wrapping_sub(a);
    b = b ^ (a << 23);
    c = c.wrapping_sub(a);
    c = c.wrapping_sub(b);
    c = c ^ (b >> 5);
    a = a.wrapping_sub(b);
    a = a.wrapping_sub(c);
    a = a ^ (c >> 35);
    b = b.wrapping_sub(c);
    b = b.wrapping_sub(a);
    b = b ^ (a << 49);
    c = c.wrapping_sub(a);
    c = c.wrapping_sub(b);
    c = c ^ (b >> 11);
    a = a.wrapping_sub(b);
    a = a.wrapping_sub(c);
    a = a ^ (c >> 12);
    b = b.wrapping_sub(c);
    b = b.wrapping_sub(a);
    b = b ^ (a << 18);
    c = c.wrapping_sub(a);
    c = c.wrapping_sub(b);
    c = c ^ (b >> 22);
    c
}

} // verus!
