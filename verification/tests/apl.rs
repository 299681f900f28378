use aava::algorithms::apl::{apl_distance_sum, apl_distances};
use aava::graphs::edge_list::EdgeList;
use aava::graphs::test_graphs::graph_one;

#[test]
fn apl0() {
    let g: EdgeList<()> = graph_one();
    let d = apl_distances(&g);
    let sum = apl_distance_sum(&d);
    let n = 10.0f64;
    let apl = sum as f64 / (n * (n - 1.0) / 2.0);
    assert!(apl >= 3.145 && apl <= 3.18)
}

#[test]
fn distances_are_symmetric_on_graph_one() {
    let g: EdgeList<()> = graph_one();
    let d = apl_distances(&g);
    for i in 0..10 {
        assert_eq!(d[i][i], 0);
        for j in 0..10 {
            assert_eq!(d[i][j], d[j][i]);
        }
    }
    // the two cliques sit at distance 1 internally
    for i in 0..5 {
        for j in 0..5 {
            if i != j {
                assert_eq!(d[i][j], 1);
            }
        }
    }
}
