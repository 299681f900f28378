use aava::algorithms::clustering_coef::c_coef_hits;
use aava::graphs::matrix::Adjacency;
use aava::graphs::test_graphs::graph_one;
use aava::util::random_numbs::RandomGenerator;

#[test]
fn clique_vertices_always_close_triangles() {
    // inside a 5-clique any two distinct neighbours are linked, so every
    // trial on a clique-only eligible set is a hit
    let g: Adjacency<()> = graph_one();
    let nodes: Vec<usize> = vec![0, 1, 5, 6, 8, 9];
    let mut rng = RandomGenerator::new(0xBAD5EED);
    let hits = c_coef_hits(40, &nodes, &g, &mut rng);
    // vertices 2, 3, 4 each have one bridge neighbour, so only trials on
    // them could miss; none of those vertices is listed
    assert_eq!(hits, 40);
}

#[test]
fn empty_vertex_list_scores_zero() {
    let g: Adjacency<()> = graph_one();
    let nodes: Vec<usize> = Vec::new();
    let mut rng = RandomGenerator::new(7);
    let hits = c_coef_hits(10, &nodes, &g, &mut rng);
    assert_eq!(hits, 0);
}

#[test]
fn trials_are_deterministic_given_the_seed() {
    let g: Adjacency<()> = graph_one();
    let nodes: Vec<usize> = vec![0, 1, 2, 3, 4];
    let mut rng1 = RandomGenerator::new(42);
    let mut rng2 = RandomGenerator::new(42);
    let a = c_coef_hits(100, &nodes, &g, &mut rng1);
    let b = c_coef_hits(100, &nodes, &g, &mut rng2);
    assert_eq!(a, b);
}
