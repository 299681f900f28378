use aava::algorithms::min_cut::{
    fast_karger_stein, fast_karger_stein_count, karger_stein, karger_stein_count,
};
use aava::graphs::edge_list::EdgeList;
use aava::graphs::test_graphs::graph_one;
use aava::graphs::FromEdges;
use aava::util::disjoint_set::{PathCompression, PathHalving, PathSplitting};

const GRAPH_ONE_MIN_CUT: [(usize, usize); 3] = [(2, 6), (3, 7), (4, 5)];
const SUCCSESS_RATE: usize = 7;

fn check_min_cut_edges<F: Fn() -> Vec<(usize, usize)>>(cut: &[(usize, usize)], attempts: F) -> usize {
    let mut cut: Vec<_> = cut.to_owned();
    cut.sort();
    (0..10)
        .map(|_| attempts())
        .filter(|attempt| {
            let mut attempt = attempt.clone();
            attempt.sort();
            cut == attempt
        })
        .count()
}

fn check_min_cut_count<F: Fn() -> usize>(cut: usize, attempts: F) -> usize {
    (0..10).filter(|_| cut == attempts()).count()
}

#[test]
fn karger_stein_graph_one() {
    let succ = check_min_cut_edges(&GRAPH_ONE_MIN_CUT, || {
        karger_stein::<PathCompression>(&mut graph_one::<EdgeList<()>>())
    });
    assert!(succ > SUCCSESS_RATE, "Got it right {} times", succ)
}

#[test]
fn fast_karger_stein_graph_one() {
    let succ = check_min_cut_edges(&GRAPH_ONE_MIN_CUT, || {
        fast_karger_stein::<PathCompression>(&mut graph_one::<EdgeList<()>>())
    });
    assert!(succ > SUCCSESS_RATE, "Got it right {} times", succ)
}

#[test]
fn karger_stein_count_graph_one() {
    let succ = check_min_cut_count(GRAPH_ONE_MIN_CUT.len(), || {
        karger_stein_count::<PathHalving>(&mut graph_one::<EdgeList<()>>())
    });
    assert!(succ > SUCCSESS_RATE, "Got it right {} times", succ)
}

#[test]
fn fast_karger_stein_count_graph_one() {
    let succ = check_min_cut_count(GRAPH_ONE_MIN_CUT.len(), || {
        fast_karger_stein_count::<PathSplitting>(&mut graph_one::<EdgeList<()>>())
    });
    assert!(succ > SUCCSESS_RATE, "Got it right {} times", succ)
}

#[test]
fn karger_stein_two_blocks() {
    // two complete 10-vertex blocks bridged by four edges
    let mut g = Vec::new();
    for i in 0..10 {
        for j in 0..10 {
            if i != j {
                g.push((i, j));
            }
        }
    }
    let g0 = g.iter().map(|(a, b)| (a + 10, b + 10)).collect::<Vec<_>>();
    g.extend(g0);
    let min_cut = [(1, 11), (2, 12), (3, 13), (4, 14)];
    for (a, b) in &min_cut {
        g.push((*a, *b))
    }
    let succ = check_min_cut_edges(&min_cut, || {
        fast_karger_stein::<PathCompression>(&mut EdgeList::from_edges(20, g.clone()))
    });
    assert!(succ > SUCCSESS_RATE, "Got it right {} times", succ)
}
