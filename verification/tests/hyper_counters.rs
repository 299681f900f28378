use aava::util::hyper_counters::{CompactHyperLogLog, HyperLogLog, HyperLogLogCounter, B};
use aava::util::random_numbs::random_seed;

#[test]
fn hyper_counters_equivalence() {
    let seed = random_seed();
    let mut h1 = HyperLogLog::new_with_seed(B::B4, seed);
    let mut h2 = CompactHyperLogLog::new_with_seed(B::B4, 10_000, seed);
    for i in 0..10_000 {
        let value = rand::random::<i32>();
        let f1 = h1.register(value as u64);
        let f2 = h2.register(value as u64);
        assert!(f1 && f2, "rank overflowed a register at i = {}", i);
        assert_eq!(h1.state(), h2.state(), "Equivalence test failed at i = {}", i);
    }
}

#[test]
fn equivalence_after_union() {
    let seed = random_seed();
    let mut h1s: Vec<HyperLogLog> = (0..16).map(|_| HyperLogLog::new_with_seed(B::B4, seed)).collect();
    let mut h2s: Vec<CompactHyperLogLog> =
        vec![CompactHyperLogLog::new_with_seed(B::B4, 10_000, seed)];
    for i in 0..10_000 {
        let value = rand::random::<i32>();
        for (h1, h2) in h1s.iter_mut().zip(h2s.iter_mut()) {
            let f1 = h1.register(value as u64);
            let f2 = h2.register(value as u64);
            assert!(f1 && f2, "rank overflowed a register at i = {}", i);
            assert_eq!(h1.state(), h2.state(), "Equivalence test failed at i = {}", i);
        }
    }
    for i in 0..500 {
        let (h1, t) = h1s.split_at_mut(1);
        for w in t {
            w.union_onto(&mut h1[0]);
        }
        let (h2, t) = h2s.split_at_mut(1);
        for w in t {
            w.union_onto(&mut h2[0]);
        }
        assert_eq!(h1[0].state(), h2[0].state(), "Equivalence test failed at i = {}", i);
    }
}

fn alpha(m: usize) -> f64 {
    match m {
        16 => 0.673,
        32 => 0.697,
        64 => 0.709,
        _ => 0.7213 / (1.0 + 1.079 / m as f64),
    }
}

fn estimate(registers: &[u8]) -> f64 {
    let m = registers.len() as f64;
    let alpha_mm = alpha(registers.len()) * m * m;
    let two_pow_32 = (1u64 << 32) as f64;
    let e = alpha_mm / registers.iter().map(|&j| 1.0 / f64::powi(2.0, j as i32)).sum::<f64>();
    if e <= (5.0 / 2.0) * m {
        let n_eq_0 = registers.iter().filter(|x| **x == 0).count();
        if n_eq_0 != 0 {
            m * f64::ln(m / n_eq_0 as f64)
        } else {
            e
        }
    } else if e <= (1.0 / 30.0) * two_pow_32 {
        e
    } else {
        -two_pow_32 * f64::log2(1.0 - e / two_pow_32)
    }
}

fn run_cardinality(b: B) {
    const N: usize = 100 * 1000;
    const N_SKEW: usize = N / 16;
    let mut log = HyperLogLog::new_with_seed(b, 0x156820568);
    for i in 0..N {
        log.register(i as u64);
    }
    let avg = estimate(&log.state());
    assert!(
        avg >= (N - N_SKEW) as f64 && avg <= (N + N_SKEW) as f64,
        "Expected a value between {} and {} but got {}",
        N - N_SKEW,
        N + N_SKEW,
        avg
    );
}

#[test]
fn test_100k_b9() {
    run_cardinality(B::B9);
}

#[test]
fn test_100k_b10() {
    run_cardinality(B::B10);
}

#[test]
fn test_100k_b11() {
    run_cardinality(B::B11);
}

#[test]
fn test_100k_b12() {
    run_cardinality(B::B12);
}

#[test]
fn test_100k_b13() {
    run_cardinality(B::B13);
}

#[test]
fn test_100k_b14() {
    run_cardinality(B::B14);
}

#[test]
fn test_100k_b15() {
    run_cardinality(B::B15);
}
