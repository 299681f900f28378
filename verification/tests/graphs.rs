use aava::graphs::edge_list::EdgeList;
use aava::graphs::csr::CSR;
use aava::graphs::matrix::Adjacency;
use aava::graphs::test_graphs::graph_one;
use aava::graphs::FromEdges;

#[test]
fn test_macro() {
    let graph: Adjacency<()> = Adjacency::from_edges(3, vec![(0, 1), (0, 2), (1, 0)]);
    assert_eq!(graph.edges(), 3);
}

#[test]
fn test_macro_weights() {
    let mut graph: Adjacency<i32> = Adjacency::new();
    graph.add_vertex(2);
    graph.add_weighed_link(0, 1, 42);
    graph.add_weighed_link(0, 2, 33);
    graph.add_weighed_link(2, 0, 25);
    assert_eq!(graph.edges(), 3);
    assert_eq!(graph.neighbours(0).iter().map(|i| i.weight).sum::<i32>(), 42 + 33);
    assert_eq!(graph.neighbours(1).iter().map(|i| i.weight).sum::<i32>(), 0);
    assert_eq!(graph.neighbours(2).iter().map(|i| i.weight).sum::<i32>(), 25);
}

#[test]
fn representations_agree() {
    // the same edge list gives the same vertex and edge counts in every
    // representation
    let list = vec![(0usize, 1usize), (1, 2), (2, 0), (3, 1), (0, 3)];
    let e: EdgeList<()> = EdgeList::from_edges(4, list.clone());
    let c: CSR<()> = CSR::from_edges(4, list.clone());
    let a: Adjacency<()> = Adjacency::from_edges(4, list.clone());
    assert_eq!(FromEdges::vertices(&e), 4);
    assert_eq!(FromEdges::vertices(&c), 4);
    assert_eq!(FromEdges::vertices(&a), 4);
    assert_eq!(FromEdges::edges(&e), 5);
    assert_eq!(FromEdges::edges(&c), 5);
    assert_eq!(FromEdges::edges(&a), 5);
}

#[test]
fn graph_one_has_expected_shape() {
    let g: EdgeList<()> = graph_one();
    assert_eq!(FromEdges::vertices(&g), 10);
    assert_eq!(FromEdges::edges(&g), 43);
    // the three bridge edges are present
    let edges = g.as_edges();
    for cut in [(2, 6), (4, 5), (3, 7)] {
        assert!(edges.iter().any(|e| (e.0, e.1) == cut));
    }
}

#[test]
fn csr_rows_follow_insertion_order() {
    let c: CSR<()> = CSR::from_edges(3, vec![(0, 2), (0, 1), (2, 0)]);
    assert_eq!(c.neighbours(0), vec![2, 1]);
    assert_eq!(c.neighbours(1), Vec::<usize>::new());
    assert_eq!(c.neighbours(2), vec![0]);
    let rows = c.neighbourhoods();
    assert_eq!(rows, vec![vec![2, 1], vec![], vec![0]]);
    assert_eq!(c.nodes(), vec![0, 1, 2]);
}
