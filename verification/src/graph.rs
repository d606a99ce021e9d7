use crate::hashing::spec_hash;
use crate::graph_v2::{completes_magic_sum, partnerships_complete};
use crate::magic_sums::{MagicSums, MagicSumsView};
use petgraph::graph::{DiGraph, Graph as PetGraph, NodeIndex};
use petgraph::Directed;
use vstd::prelude::*;

verus! {

/// The graph type of `petgraph`, with node weights `N`, edge weights `E`,
/// edge kind `Ty` and index type `Ix`.
#[verifier::external_type_specification]
#[verifier::external_body]
#[verifier::reject_recursive_types(N)]
#[verifier::reject_recursive_types(E)]
#[verifier::reject_recursive_types(Ty)]
#[verifier::reject_recursive_types(Ix)]
pub struct ExPetGraph<N, E, Ty, Ix>(PetGraph<N, E, Ty, Ix>);

/// The marker of directed edges in `petgraph`.
#[verifier::external_type_specification]
#[verifier::external_body]
pub struct ExDirected(Directed);

/// The node weights of a directed graph, in the order of the node indices.
pub uninterp spec fn graph_nodes(graph: DiGraph<u64, ()>) -> Seq<u64>;

/// The edges of a directed graph as (source, target) node indices, in the
/// order of the edge indices.
pub uninterp spec fn graph_edges(graph: DiGraph<u64, ()>) -> Seq<(usize, usize)>;

/// `DiGraph::new`: a graph with no nodes and no edges.
#[verifier::external_body]
fn new_digraph() -> (graph: DiGraph<u64, ()>)
    ensures
        graph_nodes(graph) == Seq::<u64>::empty(),
        graph_edges(graph) == Seq::<(usize, usize)>::empty(),
{
    DiGraph::<u64, ()>::new()
}

/// `Graph::node_count`: the number of nodes.
#[verifier::external_body]
pub(crate) fn node_count(graph: &DiGraph<u64, ()>) -> (count: usize)
    ensures
        count == graph_nodes(*graph).len(),
{
    graph.node_count()
}

/// `Graph::add_node`: appends a node with the weight, whose index is the
/// old node count, and returns that index; the edges stay. It panics when
/// the node count is at the largest `u32` index, which `requires` leaves
/// out.
#[verifier::external_body]
fn add_node(graph: &mut DiGraph<u64, ()>, weight: u64) -> (index: usize)
    requires
        graph_nodes(*old(graph)).len() < u32::MAX,
    ensures
        graph_nodes(*final(graph)) == graph_nodes(*old(graph)).push(weight),
        graph_edges(*final(graph)) == graph_edges(*old(graph)),
        index == graph_nodes(*old(graph)).len(),
{
    graph.add_node(weight).index()
}

/// `Graph::add_edge`: appends an edge from node `source` to node `target`;
/// the nodes stay. It panics on a node index out of range, or when the edge
/// count is at the largest `u32` index, which `requires` leaves out.
#[verifier::external_body]
fn add_edge(graph: &mut DiGraph<u64, ()>, source: usize, target: usize)
    requires
        source < graph_nodes(*old(graph)).len(),
        target < graph_nodes(*old(graph)).len(),
        graph_edges(*old(graph)).len() < u32::MAX,
    ensures
        graph_nodes(*final(graph)) == graph_nodes(*old(graph)),
        graph_edges(*final(graph)) == graph_edges(*old(graph)).push((source, target)),
{
    graph.add_edge(NodeIndex::<u32>::new(source), NodeIndex::<u32>::new(target), ());
}

/// The sum node that element `i` and its partner `partner` give: none where
/// the partner is the bigger number or the rest of the magic sum is bigger
/// than element `i`; else the two with the element of that rest.
pub open spec fn sum_triple(sums: MagicSumsView, magic_sum: int, i: int, partner: usize) -> Option<(usize, usize, usize)> {
    let number = sums.elements[i].number;
    let partner_number = sums.elements[partner as int].number;
    let rest = magic_sum - number - partner_number;
    if partner_number > number || rest > number {
        None
    } else {
        Some((i as usize, partner, sums.lookup[spec_hash(rest as u64)]))
    }
}

/// The sum nodes of element `i` from its first `k` partners, in order.
pub open spec fn partner_triples(sums: MagicSumsView, magic_sum: int, i: int, k: int) -> Seq<(usize, usize, usize)>
    decreases k,
{
    if k <= 0 {
        Seq::empty()
    } else {
        let earlier = partner_triples(sums, magic_sum, i, k - 1);
        match sum_triple(sums, magic_sum, i, sums.elements[i].partners[k - 1]) {
            Some(t) => earlier.push(t),
            None => earlier,
        }
    }
}

/// The sum nodes of the first `i` elements, in order.
pub open spec fn element_triples(sums: MagicSumsView, magic_sum: int, i: int) -> Seq<(usize, usize, usize)>
    decreases i,
{
    if i <= 0 {
        Seq::empty()
    } else {
        element_triples(sums, magic_sum, i - 1) + partner_triples(
            sums,
            magic_sum,
            i - 1,
            sums.elements[i - 1].partners.len() as int,
        )
    }
}

/// The loops of the square elements among the first `i`, in order.
pub open spec fn square_loops(sums: MagicSumsView, i: int) -> Seq<(usize, usize)>
    decreases i,
{
    if i <= 0 {
        Seq::empty()
    } else if sums.elements[i - 1].is_square {
        square_loops(sums, i - 1).push(((i - 1) as usize, (i - 1) as usize))
    } else {
        square_loops(sums, i - 1)
    }
}

/// The three edges into each sum node, the sum nodes numbered from `base`.
pub open spec fn triple_edges(triples: Seq<(usize, usize, usize)>, base: int) -> Seq<(usize, usize)>
    decreases triples.len(),
{
    if triples.len() == 0 {
        Seq::empty()
    } else {
        let t = triples.last();
        let node = (base + triples.len() - 1) as usize;
        triple_edges(triples.drop_last(), base) + seq![(t.0, node), (t.1, node), (t.2, node)]
    }
}

/// For partner `k` of element `i`: where the partner is not the bigger
/// number, the two fit in the magic sum, and where the rest is not bigger
/// than the element, the rest is a number of the table.
pub open spec fn rest_found(sums: MagicSumsView, magic_sum: int, i: int, k: int) -> bool {
    let number = sums.elements[i].number;
    let partner_number = sums.elements[sums.elements[i].partners[k] as int].number;
    let rest = magic_sum - number - partner_number;
    partner_number <= number ==> {
        &&& rest >= 0
        &&& rest <= number ==> sums.lookup.contains_key(spec_hash(rest as u64))
    }
}

/// The rest of every partnership is found (see `rest_found`).
pub open spec fn rests_found(sums: MagicSumsView, magic_sum: int) -> bool {
    forall|i: int, k: int|
        0 <= i < sums.elements.len() && 0 <= k < sums.elements[i].partners.len() ==> #[trigger] rest_found(
            sums,
            magic_sum,
            i,
            k,
        )
}

/// Nothing in the graph's construction fails: the rests are found (see
/// `rests_found`), and the node and edge counts stay within `u32` indices.
pub open spec fn graph_fits(sums: MagicSumsView, magic_sum: int) -> bool {
    let n = sums.elements.len() as int;
    let triples = element_triples(sums, magic_sum, n);
    &&& rests_found(sums, magic_sum)
    &&& n + triples.len() <= u32::MAX
    &&& square_loops(sums, n).len() + 3 * triples.len() <= u32::MAX
}

/// In a table where every partnership completes the magic sum and every
/// element is found by its number, the rest of every partnership is found:
/// only the index bounds of `graph_fits` remain to be met.
pub proof fn lemma_complete_tables_find_rests(sums: MagicSumsView, magic_sum: int)
    requires
        sums.wf(),
        sums.indexed(),
        partnerships_complete(sums.elements, magic_sum),
    ensures
        rests_found(sums, magic_sum),
{
    assert forall|i: int, k: int| 0 <= i < sums.elements.len() && 0 <= k < sums.elements[i].partners.len() implies #[trigger] rest_found(
        sums,
        magic_sum,
        i,
        k,
    ) by {
        let p = sums.elements[i].partners[k];
        assert(completes_magic_sum(sums.elements, i, p as int, magic_sum));
        let c = choose|c: int|
            0 <= c < sums.elements.len() && sums.elements[i].number + sums.elements[p as int].number + (
            #[trigger] sums.elements[c]).number == magic_sum;
        assert(sums.lookup.contains_key(spec_hash(sums.elements[c].number)));
    }
}

proof fn lemma_square_loops_len(sums: MagicSumsView, i: int)
    ensures
        square_loops(sums, i).len() <= if i < 0 { 0 } else { i },
    decreases i,
{
    if i > 0 {
        lemma_square_loops_len(sums, i - 1);
    }
}

proof fn lemma_triples_grow(sums: MagicSumsView, magic_sum: int, i: int, k: int, j: int)
    requires
        0 <= k <= j,
    ensures
        partner_triples(sums, magic_sum, i, k).len() <= partner_triples(sums, magic_sum, i, j).len(),
    decreases j,
{
    if k < j {
        lemma_triples_grow(sums, magic_sum, i, k, j - 1);
    }
}

proof fn lemma_element_triples_grow(sums: MagicSumsView, magic_sum: int, i: int, j: int)
    requires
        0 <= i <= j,
    ensures
        element_triples(sums, magic_sum, i).len() <= element_triples(sums, magic_sum, j).len(),
    decreases j,
{
    if i < j {
        lemma_element_triples_grow(sums, magic_sum, i, j - 1);
    }
}

proof fn lemma_square_loops_grow(sums: MagicSumsView, i: int, j: int)
    requires
        0 <= i <= j,
    ensures
        square_loops(sums, i).len() <= square_loops(sums, j).len(),
    decreases j,
{
    if i < j {
        lemma_square_loops_grow(sums, i, j - 1);
    }
}

proof fn lemma_triple_edges_push(triples: Seq<(usize, usize, usize)>, t: (usize, usize, usize), base: int)
    ensures
        triple_edges(triples.push(t), base) == triple_edges(triples, base) + seq![
            (t.0, (base + triples.len()) as usize),
            (t.1, (base + triples.len()) as usize),
            (t.2, (base + triples.len()) as usize),
        ],
        triple_edges(triples, base).len() == 3 * triples.len(),
    decreases triples.len(),
{
    assert(triples.push(t).drop_last() =~= triples);
    if triples.len() > 0 {
        lemma_triple_edges_push(triples.drop_last(), triples.last(), base);
        assert(triples.drop_last().push(triples.last()) =~= triples);
    }
}

/// Whether the graph of the table can be built (see `graph_fits`): every
/// rest is found, and the node and edge counts stay within `u32` indices.
pub fn fits_in_graph(center_square: u64, magic_sums: &MagicSums) -> (fits: bool)
    requires
        3 * center_square <= u64::MAX,
    ensures
        fits == graph_fits(magic_sums@, 3 * center_square),
{
    proof {
        use_type_invariant(magic_sums);
    }
    let ghost sums = magic_sums@;
    let ghost magic = 3 * center_square as int;
    let magic_sum = center_square * 3;
    let count = magic_sums.len();
    let limit: u64 = 0xffff_ffff;
    let mut loops: u64 = 0;
    let mut i: usize = 0;
    while i < count
        invariant
            count == sums.elements.len(),
            sums == magic_sums@,
            0 <= i <= count,
            loops == square_loops(sums, i as int).len(),
            loops <= i,
        decreases count - i,
    {
        proof {
            lemma_square_loops_len(sums, i as int);
        }
        if magic_sums.is_square_at(i) {
            loops = loops + 1;
        }
        i = i + 1;
    }
    if count as u64 > limit {
        proof {
            lemma_element_triples_grow(sums, magic, 0, count as int);
        }
        return false;
    }
    let mut triples: u64 = 0;
    let mut i: usize = 0;
    while i < count
        invariant
            count == sums.elements.len(),
            sums == magic_sums@,
            sums.wf(),
            0 <= i <= count,
            count <= limit,
            limit == 0xffff_ffff,
            magic_sum == magic,
            magic == 3 * center_square,
            triples == element_triples(sums, magic, i as int).len(),
            count + triples <= limit,
            forall|a: int, k: int| 0 <= a < i && 0 <= k < sums.elements[a].partners.len() ==> #[trigger] rest_found(sums, magic, a, k),
        decreases count - i,
    {
        let number = magic_sums.number(i);
        let partners = magic_sums.partners(i);
        let mut k: usize = 0;
        while k < partners.len()
            invariant
                count == sums.elements.len(),
                sums == magic_sums@,
                sums.wf(),
                0 <= i < count,
                count <= limit,
                limit == 0xffff_ffff,
                magic_sum == magic,
                magic == 3 * center_square,
            magic == 3 * center_square,
                0 <= k <= partners@.len(),
                partners@ == sums.elements[i as int].partners,
                number == sums.elements[i as int].number,
                triples == element_triples(sums, magic, i as int).len() + partner_triples(sums, magic, i as int, k as int).len(),
                count + triples <= limit,
                forall|a: int, q: int| 0 <= a < i && 0 <= q < sums.elements[a].partners.len() ==> #[trigger] rest_found(sums, magic, a, q),
                forall|q: int| 0 <= q < k ==> #[trigger] rest_found(sums, magic, i as int, q),
            decreases partners.len() - k,
        {
            let partner = partners[k];
            proof {
                assert(sums.elements[i as int].partners[k as int] < count);
                lemma_element_triples_grow(sums, magic, i + 1, count as int);
                lemma_triples_grow(sums, magic, i as int, k + 1, partners@.len() as int);
                assert(element_triples(sums, magic, i as int) + partner_triples(sums, magic, i as int, partners@.len() as int)
                    == element_triples(sums, magic, i + 1));
            }
            let partner_number = magic_sums.number(partner);
            if partner_number <= number {
                if number > magic_sum || partner_number > magic_sum - number {
                    proof {
                        assert(!rest_found(sums, magic, i as int, k as int));
                        assert(!rests_found(sums, magic));
                        assert(!graph_fits(sums, magic));
                    }
                    return false;
                }
                let remainder = magic_sum - number - partner_number;
                if remainder <= number {
                    match magic_sums.index_of(remainder) {
                        Some(_) => {},
                        None => {
                            proof {
                                assert(!rest_found(sums, magic, i as int, k as int));
                                assert(!rests_found(sums, magic));
                                assert(!graph_fits(sums, magic));
                            }
                            return false;
                        },
                    }
                    proof {
                        assert(partner_triples(sums, magic, i as int, k + 1).len() == partner_triples(sums, magic, i as int, k as int).len() + 1);
                    }
                    if count as u64 + triples + 1 > limit {
                        proof {
                            assert(element_triples(sums, magic, count as int).len() >= triples + 1);
                        }
                        return false;
                    }
                    triples = triples + 1;
                } else {
                    proof {
                        assert(partner_triples(sums, magic, i as int, k + 1) == partner_triples(sums, magic, i as int, k as int));
                    }
                }
            } else {
                proof {
                    assert(partner_triples(sums, magic, i as int, k + 1) == partner_triples(sums, magic, i as int, k as int));
                }
            }
            proof {
                assert(rest_found(sums, magic, i as int, k as int));
            }
            k = k + 1;
        }
        proof {
            assert(element_triples(sums, magic, i as int) + partner_triples(sums, magic, i as int, partners@.len() as int)
                == element_triples(sums, magic, i + 1));
        }
        i = i + 1;
    }
    proof {
        lemma_square_loops_len(sums, count as int);
    }
    loops + 3 * triples <= limit
}

/// The graph of the partnerships of a magic sum: a node per element of
/// the table, weighted with its number, with a loop on each square; then,
/// for each element and each partner that is not the bigger number and
/// whose rest of the magic sum is not bigger than the element, a sum node
/// of weight 0 with edges from the element, the partner and the rest's
/// element.
pub fn generate_graph(center_square: u64, magic_sums: &MagicSums) -> (graph: DiGraph<u64, ()>)
    requires
        3 * center_square <= u64::MAX,
        graph_fits(magic_sums@, 3 * center_square),
    ensures
        graph_nodes(graph) == magic_sums@.elements.map_values(|e: crate::magic_sums::ElementView| e.number)
            + Seq::new(
            element_triples(magic_sums@, 3 * center_square, magic_sums@.elements.len() as int).len(),
            |k: int| 0u64,
        ),
        graph_edges(graph) == square_loops(magic_sums@, magic_sums@.elements.len() as int) + triple_edges(
            element_triples(magic_sums@, 3 * center_square, magic_sums@.elements.len() as int),
            magic_sums@.elements.len() as int,
        ),
{
    proof {
        use_type_invariant(magic_sums);
    }
    let ghost sums = magic_sums@;
    let ghost magic = 3 * center_square as int;
    let mut graph = new_digraph();
    let magic_sum = center_square * 3;
    let count = magic_sums.len();
    let ghost all_triples = element_triples(sums, magic, count as int);
    proof {
        lemma_square_loops_len(sums, count as int);
    }

    let mut i: usize = 0;
    while i < count
        invariant
            count == sums.elements.len(),
            sums == magic_sums@,
            0 <= i <= count,
            graph_fits(sums, magic),
            all_triples == element_triples(sums, magic, count as int),
            graph_nodes(graph) == sums.elements.take(i as int).map_values(|e: crate::magic_sums::ElementView| e.number),
            graph_edges(graph) == square_loops(sums, i as int),
        decreases count - i,
    {
        proof {
            lemma_square_loops_grow(sums, i + 1, count as int);
            lemma_square_loops_len(sums, i as int);
        }
        let node = add_node(&mut graph, magic_sums.number(i));
        if magic_sums.is_square_at(i) {
            add_edge(&mut graph, node, node);
        }
        proof {
            assert(sums.elements.take(i + 1).map_values(|e: crate::magic_sums::ElementView| e.number)
                =~= sums.elements.take(i as int).map_values(|e: crate::magic_sums::ElementView| e.number).push(
                sums.elements[i as int].number,
            ));
        }
        i = i + 1;
    }
    proof {
        assert(sums.elements.take(count as int) =~= sums.elements);
        assert(Seq::new(0, |k: int| 0u64) =~= Seq::<u64>::empty());
        assert(graph_nodes(graph) =~= sums.elements.map_values(|e: crate::magic_sums::ElementView| e.number)
            + Seq::new(0, |k: int| 0u64));
        assert(graph_edges(graph) =~= square_loops(sums, count as int) + triple_edges(Seq::empty(), count as int));
    }

    let mut i: usize = 0;
    while i < count
        invariant
            count == sums.elements.len(),
            sums == magic_sums@,
            sums.wf(),
            0 <= i <= count,
            magic_sum == magic,
            graph_fits(sums, magic),
            all_triples == element_triples(sums, magic, count as int),
            graph_nodes(graph) == sums.elements.map_values(|e: crate::magic_sums::ElementView| e.number) + Seq::new(
                element_triples(sums, magic, i as int).len(),
                |k: int| 0u64,
            ),
            graph_edges(graph) == square_loops(sums, count as int) + triple_edges(
                element_triples(sums, magic, i as int),
                count as int,
            ),
        decreases count - i,
    {
        let number = magic_sums.number(i);
        let partners = magic_sums.partners(i);
        let ghost before = element_triples(sums, magic, i as int);
        let mut k: usize = 0;
        while k < partners.len()
            invariant
                count == sums.elements.len(),
                sums == magic_sums@,
                sums.wf(),
                0 <= i < count,
                0 <= k <= partners@.len(),
                partners@ == sums.elements[i as int].partners,
                number == sums.elements[i as int].number,
                magic_sum == magic,
                graph_fits(sums, magic),
                all_triples == element_triples(sums, magic, count as int),
                before == element_triples(sums, magic, i as int),
                graph_nodes(graph) == sums.elements.map_values(|e: crate::magic_sums::ElementView| e.number)
                    + Seq::new((before + partner_triples(sums, magic, i as int, k as int)).len(), |q: int| 0u64),
                graph_edges(graph) == square_loops(sums, count as int) + triple_edges(
                    before + partner_triples(sums, magic, i as int, k as int),
                    count as int,
                ),
            decreases partners.len() - k,
        {
            let partner = partners[k];
            proof {
                assert(sums.elements[i as int].partners[k as int] < count);
            }
            let partner_number = magic_sums.number(partner);
            let ghost so_far = before + partner_triples(sums, magic, i as int, k as int);
            proof {
                lemma_element_triples_grow(sums, magic, i + 1, count as int);
                lemma_triples_grow(sums, magic, i as int, k + 1, partners@.len() as int);
                assert(before + partner_triples(sums, magic, i as int, partners@.len() as int)
                    == element_triples(sums, magic, i + 1));
                lemma_square_loops_len(sums, count as int);
                lemma_triple_edges_push(so_far, (0, 0, 0), count as int);
            }
            proof {
                assert(rest_found(sums, magic, i as int, k as int));
            }
            if partner_number <= number {
                let remainder = magic_sum - number - partner_number;
                if remainder <= number {
                    let partner2 = match magic_sums.index_of(remainder) {
                        Some(index) => index,
                        None => {
                            proof {
                                assert(false);
                            }
                            0
                        },
                    };
                    proof {
                        assert(sums.lookup.contains_key(spec_hash(remainder)));
                        let t = (i, partner, partner2);
                        assert(partner_triples(sums, magic, i as int, k + 1) =~= partner_triples(sums, magic, i as int, k as int).push(t));
                        assert(so_far.push(t) =~= before + partner_triples(sums, magic, i as int, k + 1));
                        lemma_triple_edges_push(so_far, t, count as int);
                    }
                    let sum_node = add_node(&mut graph, 0);
                    add_edge(&mut graph, i, sum_node);
                    add_edge(&mut graph, partner, sum_node);
                    add_edge(&mut graph, partner2, sum_node);
                    proof {
                        assert(graph_nodes(graph) =~= sums.elements.map_values(|e: crate::magic_sums::ElementView| e.number)
                            + Seq::new((before + partner_triples(sums, magic, i as int, k + 1)).len(), |q: int| 0u64));
                    }
                } else {
                    proof {
                        assert(partner_triples(sums, magic, i as int, k + 1) == partner_triples(sums, magic, i as int, k as int));
                    }
                }
            } else {
                proof {
                    assert(partner_triples(sums, magic, i as int, k + 1) == partner_triples(sums, magic, i as int, k as int));
                }
            }
            k = k + 1;
        }
        proof {
            assert(before + partner_triples(sums, magic, i as int, partners@.len() as int) == element_triples(sums, magic, i + 1));
        }
        i = i + 1;
    }
    graph
}

} // verus!
