use magic_squares::graph_v2::{integer_sqrt, is_square, Graph};

#[test]
fn is_square_recognises_squares() {
    for root in [0u64, 1, 2, 3, 425, 4_294_967_295] {
        assert!(is_square(root * root));
    }
    for value in [2u64, 3, 5, 180_626, u64::MAX] {
        assert!(!is_square(value));
    }
}

fn check_partnerships(graph: &Graph, magic_sum: u64) {
    let sums = graph.magic_sums();
    for a in 0..sums.len() {
        let partners = sums.partners(a);
        assert_eq!(partners.len() % 2, 0);
        for &p in partners {
            let found = (0..sums.len()).any(|c| sums.number(a) + sums.number(p) + sums.number(c) == magic_sum);
            assert!(found, "partner {} of {} does not complete {}", p, a, magic_sum);
            // a lists p as often as p lists a
            let there = partners.iter().filter(|&&q| q == p).count();
            let back = sums.partners(p).iter().filter(|&&q| q == a).count();
            assert_eq!(there, back);
        }
        // partners come in pairs that complete the magic sum with the element
        for pair in partners.chunks(2) {
            assert_eq!(sums.number(a) + sums.number(pair[0]) + sums.number(pair[1]), magic_sum);
        }
    }
}

#[test]
fn generate_on_center_25() {
    // 1 + 49 = 50 = 2 * 25
    let mut graph = Graph::new();
    graph.generate(25, vec![7]);
    let sums = graph.magic_sums();
    assert_eq!(sums.number(0), 1);
    assert_eq!(sums.number(1), 49);
    assert_eq!(sums.number(2), 25);
    assert!(sums.is_square_at(2));
    assert_eq!(sums.partners(0)[..2], [1, 2]);
    check_partnerships(&graph, 75);
}

#[test]
fn generate_on_the_known_center() {
    // 425^2 = 180625; the known square pairs 373^2 with 222121 and 565^2 with 205^2.
    let mut graph = Graph::new();
    graph.generate(180_625, vec![373, 565]);
    check_partnerships(&graph, 541_875);
    let sums = graph.magic_sums();
    // the ordered squares come first: 361250 - 565^2, 361250 - 373^2, 373^2, 565^2
    assert_eq!(sums.number(0), 42_025);
    assert_eq!(sums.number(1), 222_121);
    assert_eq!(sums.number(2), 139_129);
    assert_eq!(sums.number(3), 319_225);
}

#[test]
fn generate_twice_starts_over() {
    let mut graph = Graph::new();
    graph.generate(180_625, vec![373, 565]);
    graph.generate(25, vec![7]);
    assert_eq!(graph.magic_sums().number(0), 1);
    check_partnerships(&graph, 75);
}

#[test]
fn integer_sqrt_rounds_down() {
    for value in [0u64, 1, 2, 3, 4, 15, 16, 17, 180_625, 180_626, u64::MAX, 0xffff_fffe_0000_0001, 0xffff_fffe_0000_0000] {
        assert_eq!(integer_sqrt(value), value.isqrt(), "root of {}", value);
    }
}
