use magic_squares::matching::{match_subgraphs, patterns_fit, same_node_kind, Patterns, MATCHED_MAGIC_SUM};
use petgraph::graph::DiGraph;

fn graph_of(weights: &[u64], edges: &[(u32, u32)]) -> DiGraph<u64, ()> {
    let mut graph = DiGraph::<u64, ()>::new();
    for &w in weights {
        graph.add_node(w);
    }
    for &(a, b) in edges {
        graph.add_edge(a.into(), b.into(), ());
    }
    graph
}

#[test]
fn nodes_match_by_kind() {
    assert!(same_node_kind(0, 0));
    assert!(same_node_kind(4, 9));
    assert!(!same_node_kind(0, 9));
    assert!(!same_node_kind(4, 0));
}

#[test]
fn matches_only_the_chosen_magic_sum() {
    let graph = graph_of(&[7, 0, 9], &[(2, 1)]);
    let patterns = Patterns { two_cells_not_square: vec![graph_of(&[5, 0], &[(0, 1)])] };
    assert_eq!(MATCHED_MAGIC_SUM, 541_875);
    assert!(match_subgraphs(25, &graph, &patterns).is_empty());
    // other magic sums never start a search, so an empty pattern is fine there
    let empty = Patterns { two_cells_not_square: vec![DiGraph::new()] };
    assert!(match_subgraphs(25, &graph, &empty).is_empty());
    assert_eq!(match_subgraphs(180_625, &graph, &patterns), vec![Some(vec![2, 1])]);
}

#[test]
fn patterns_bigger_than_the_graph_are_skipped() {
    let graph = graph_of(&[7, 0, 9], &[(2, 1)]);
    let big = graph_of(&[1, 2, 3, 4], &[]);
    let no_match = graph_of(&[0, 0], &[(0, 1)]);
    let patterns = Patterns { two_cells_not_square: vec![big, no_match, graph_of(&[5, 0], &[(0, 1)])] };
    assert_eq!(match_subgraphs(180_625, &graph, &patterns), vec![None, Some(vec![2, 1])]);
}

#[test]
fn patterns_fit_refuses_empty_patterns() {
    let graph = graph_of(&[7, 0, 9], &[(2, 1)]);
    let good = Patterns { two_cells_not_square: vec![graph_of(&[5, 0], &[(0, 1)])] };
    assert!(patterns_fit(&graph, &good));
    let none = Patterns { two_cells_not_square: vec![] };
    assert!(patterns_fit(&graph, &none));
    let bad = Patterns { two_cells_not_square: vec![graph_of(&[5], &[]), DiGraph::new()] };
    assert!(!patterns_fit(&graph, &bad));
}
