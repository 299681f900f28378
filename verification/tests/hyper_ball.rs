use aava::graphs::csr::CSR;
use aava::graphs::test_graphs::graph_one;
use aava::hyper_ball::hyper_ball_round;
use aava::util::hyper_counters::{CompactHyperLogLog, HyperLogLog, HyperLogLogCounter, B};

const SEED: u64 = 0xBAD5EED;
const GRAPH_ONE_APL: f64 = 3.1555555555555554;

fn alpha(m: usize) -> f64 {
    match m {
        16 => 0.673,
        32 => 0.697,
        64 => 0.709,
        _ => 0.7213 / (1.0 + 1.079 / m as f64),
    }
}

fn estimate(registers: &[u8]) -> f64 {
    let m = registers.len() as f64;
    let alpha_mm = alpha(registers.len()) * m * m;
    let two_pow_32 = (1u64 << 32) as f64;
    let e = alpha_mm / registers.iter().map(|&j| 1.0 / f64::powi(2.0, j as i32)).sum::<f64>();
    if e <= (5.0 / 2.0) * m {
        let n_eq_0 = registers.iter().filter(|x| **x == 0).count();
        if n_eq_0 != 0 {
            m * f64::ln(m / n_eq_0 as f64)
        } else {
            e
        }
    } else if e <= (1.0 / 30.0) * two_pow_32 {
        e
    } else {
        -two_pow_32 * f64::log2(1.0 - e / two_pow_32)
    }
}

fn run_hyper_ball<H: HyperLogLogCounter, F: Fn() -> H>(rows: &Vec<Vec<usize>>, fresh: F) -> f64 {
    let n = rows.len();
    let mut counters: Vec<H> = (0..n).map(|_| fresh()).collect();
    for v in 0..n {
        assert!(counters[v].register(v as u64), "rank overflowed a register");
    }
    let mut next: Vec<H> = (0..n).map(|_| fresh()).collect();
    let mut apls = vec![0.0f64; n];
    let mut t = 1.0f64;
    loop {
        let modified = hyper_ball_round(rows, &counters, &mut next);
        for v in 0..n {
            apls[v] += t * (estimate(&next[v].state()) - estimate(&counters[v].state()));
        }
        std::mem::swap(&mut counters, &mut next);
        t += 1.0;
        if !modified {
            break;
        }
    }
    apls.iter().sum::<f64>() / n as f64
}

#[test]
fn hyper_ball_run_normal() {
    let g: CSR<()> = graph_one();
    let rows = g.neighbourhoods();
    let apl = run_hyper_ball(&rows, || HyperLogLog::new_with_seed(B::B4, SEED));
    let rel = (apl - GRAPH_ONE_APL).abs() / f64::max(apl.abs(), GRAPH_ONE_APL);
    assert!(rel <= 1.0, "APL {} too far from {}", apl, GRAPH_ONE_APL);
}

#[test]
fn hyper_ball_run_compact() {
    let g: CSR<()> = graph_one();
    let rows = g.neighbourhoods();
    let apl = run_hyper_ball(&rows, || CompactHyperLogLog::new_with_seed(B::B4, 10, SEED));
    let rel = (apl - GRAPH_ONE_APL).abs() / f64::max(apl.abs(), GRAPH_ONE_APL);
    assert!(rel <= 1.0, "APL {} too far from {}", apl, GRAPH_ONE_APL);
}

#[test]
fn hyper_ball_equivalence() {
    let g: CSR<()> = graph_one();
    let rows = g.neighbourhoods();
    let a = run_hyper_ball(&rows, || HyperLogLog::new_with_seed(B::B4, SEED));
    let b = run_hyper_ball(&rows, || CompactHyperLogLog::new_with_seed(B::B4, 10, SEED));
    assert_eq!(a, b);
}
