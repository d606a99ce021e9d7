use magic_squares::graph::{fits_in_graph, generate_graph};
use magic_squares::graph_v2::Graph;
use magic_squares::magic_sums::MagicSums;

#[test]
fn graph_of_an_empty_table_is_empty() {
    let sums = MagicSums::default();
    let graph = generate_graph(25, &sums);
    assert_eq!(graph.node_count(), 0);
    assert_eq!(graph.edge_count(), 0);
}

#[test]
fn graph_has_a_node_per_element_and_a_loop_per_square() {
    let mut sums = MagicSums::default();
    sums.get_or_insert_element(1, || true, |_| true);
    sums.get_or_insert_element(2, || false, |_| true);
    let graph = generate_graph(25, &sums);
    assert_eq!(graph.node_count(), 2);
    assert_eq!(graph.edge_count(), 1);
    assert_eq!(graph.raw_nodes()[0].weight, 1);
    assert_eq!(graph.raw_nodes()[1].weight, 2);
}

#[test]
fn graph_adds_a_sum_node_per_ordered_triple() {
    // 1 + 25 + 49 = 75, the magic sum of center 25
    let mut sums = MagicSums::default();
    for n in [49u64, 25, 1] {
        sums.get_or_insert_element(n, || true, |_| true);
    }
    sums.add_partnership(0, 1, 2);
    let graph = generate_graph(25, &sums);
    // element 49 with partner 25 (rest 1) and partner 1 (rest 25); element 25 with partner 1 (rest 49 > 25: none)
    assert_eq!(graph.node_count(), 3 + 2);
    assert_eq!(graph.edge_count(), 3 + 3 * 2);
    assert_eq!(graph.raw_nodes()[3].weight, 0);
}

#[test]
fn graph_of_a_generated_center() {
    let mut graph = Graph::new();
    graph.generate(25, vec![7]);
    let drawn = generate_graph(25, graph.magic_sums());
    assert!(drawn.node_count() >= graph.magic_sums().len());
}

#[test]
fn fits_in_graph_finds_every_rest() {
    let empty = MagicSums::default();
    assert!(fits_in_graph(25, &empty));
    let mut sums = MagicSums::default();
    for n in [49u64, 25, 1] {
        sums.get_or_insert_element(n, || true, |_| true);
    }
    sums.add_partnership(0, 1, 2);
    assert!(fits_in_graph(25, &sums));
    // 49 + 25 + 2 is not the magic sum 75: the rest 1 of 49 and 25 is missing.
    let mut broken = MagicSums::default();
    for n in [49u64, 25, 2] {
        broken.get_or_insert_element(n, || true, |_| true);
    }
    broken.add_partnership(0, 1, 2);
    assert!(!fits_in_graph(25, &broken));
}
