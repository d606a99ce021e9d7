use crate::graph::{graph_edges, graph_nodes, node_count};
use petgraph::graph::DiGraph;
use vf2::subgraph_isomorphisms;
use vstd::prelude::*;

verus! {

/// The magic sum whose partnership graph is matched against the patterns.
pub const MATCHED_MAGIC_SUM: u64 = 541_875;

/// Graphs of known patterns of a magic square of squares.
pub struct Patterns {
    /// The patterns in which two cells are not squares.
    pub two_cells_not_square: Vec<DiGraph<u64, ()>>,
}

/// Two nodes match where both are sum nodes (weight 0) or both are numbers.
pub fn same_node_kind(a: u64, b: u64) -> (same: bool)
    ensures
        same == ((a == 0) == (b == 0)),
{
    (a == 0) == (b == 0)
}

/// The first subgraph isomorphism that the VF2 search of the `vf2` crate
/// finds from the pattern graph (its nodes' weights and its edges, in
/// order) into the graph, nodes matching by `same_node_kind`; `None` where
/// there is none.
pub uninterp spec fn first_subgraph_match(
    pattern_nodes: Seq<u64>,
    pattern_edges: Seq<(usize, usize)>,
    nodes: Seq<u64>,
    edges: Seq<(usize, usize)>,
) -> Option<Seq<usize>>;

/// An isomorphism found or not, as a sequence of node indices.
pub open spec fn isomorphism_view(found: Option<Vec<usize>>) -> Option<Seq<usize>> {
    match found {
        Some(mapping) => Some(mapping@),
        None => None,
    }
}

/// `vf2::subgraph_isomorphisms(pattern, graph)`, with `same_node_kind` as
/// the node equality, then `first`: the first isomorphism of the search,
/// named `first_subgraph_match`. The search panics on an empty pattern, on
/// a pattern with more nodes than the graph, and on a graph of the largest
/// `usize` size, which `requires` leaves out. As the crate documents an
/// isomorphism, it maps pattern node `i` to the graph node at index `i`:
/// one graph node per pattern node, distinct ones, of the same kind, and
/// every pattern edge between two different nodes onto a graph edge. The
/// search never compares a node's loop with a loop of the graph, so
/// nothing is said of loops.
#[verifier::external_body]
fn first_isomorphism(pattern: &DiGraph<u64, ()>, graph: &DiGraph<u64, ()>) -> (found: Option<Vec<usize>>)
    requires
        0 < graph_nodes(*pattern).len() <= graph_nodes(*graph).len(),
        graph_nodes(*graph).len() < usize::MAX,
    ensures
        isomorphism_view(found) == first_subgraph_match(
            graph_nodes(*pattern),
            graph_edges(*pattern),
            graph_nodes(*graph),
            graph_edges(*graph),
        ),
        found matches Some(mapping) ==> {
            &&& mapping@.len() == graph_nodes(*pattern).len()
            &&& forall|i: int| 0 <= i < mapping@.len() ==> #[trigger] mapping@[i] < graph_nodes(*graph).len()
            &&& forall|i: int, j: int|
                0 <= i < j < mapping@.len() ==> #[trigger] mapping@[i] != #[trigger] mapping@[j]
            &&& forall|i: int|
                0 <= i < mapping@.len() ==> ((graph_nodes(*pattern)[i] == 0) == (graph_nodes(*graph)[
                    #[trigger] mapping@[i] as int] == 0))
            &&& forall|e: int|
                0 <= e < graph_edges(*pattern).len() && graph_edges(*pattern)[e].0 != graph_edges(*pattern)[e].1
                    ==> graph_edges(*graph).contains(
                    (mapping@[(#[trigger] graph_edges(*pattern)[e]).0 as int], mapping@[graph_edges(*pattern)[e].1 as int]),
                )
        },
{
    subgraph_isomorphisms(pattern, graph).node_eq(|a: &u64, b: &u64| same_node_kind(*a, *b)).first()
}

/// Whether the patterns can be matched against the graph: none of them is
/// empty, and the graph has fewer than the largest `usize` nodes.
pub fn patterns_fit(graph: &DiGraph<u64, ()>, patterns: &Patterns) -> (fits: bool)
    ensures
        fits == (graph_nodes(*graph).len() < usize::MAX && forall|k: int|
            0 <= k < patterns.two_cells_not_square@.len() ==> graph_nodes(
                #[trigger] patterns.two_cells_not_square@[k],
            ).len() > 0),
{
    if node_count(graph) == usize::MAX {
        return false;
    }
    let list = &patterns.two_cells_not_square;
    let mut k: usize = 0;
    while k < list.len()
        invariant
            0 <= k <= list@.len(),
            forall|j: int| 0 <= j < k ==> graph_nodes(#[trigger] list@[j]).len() > 0,
            graph_nodes(*graph).len() < usize::MAX,
            list@ == patterns.two_cells_not_square@,
        decreases list.len() - k,
    {
        if node_count(&list[k]) == 0 {
            proof {
                assert(graph_nodes(list@[k as int]).len() == 0);
            }
            return false;
        }
        k = k + 1;
    }
    true
}

/// The first isomorphism into `graph` of each pattern, in order, that has
/// no more nodes than the graph.
pub open spec fn pattern_matches(graph: DiGraph<u64, ()>, patterns: Seq<DiGraph<u64, ()>>) -> Seq<Option<Seq<usize>>>
    decreases patterns.len(),
{
    if patterns.len() == 0 {
        Seq::empty()
    } else {
        let earlier = pattern_matches(graph, patterns.drop_last());
        let pattern = patterns.last();
        if graph_nodes(pattern).len() > graph_nodes(graph).len() {
            earlier
        } else {
            earlier.push(
                first_subgraph_match(graph_nodes(pattern), graph_edges(pattern), graph_nodes(graph), graph_edges(graph)),
            )
        }
    }
}

/// Matches the partnership graph of the center `center_square` against the
/// patterns where two cells are not squares, for the magic sum
/// `MATCHED_MAGIC_SUM` only: for each pattern with no more nodes than the
/// graph, in order, the first isomorphism from it into the graph. For that
/// magic sum the patterns are not empty: the search cannot start from an
/// empty pattern.
pub fn match_subgraphs(center_square: u64, graph: &DiGraph<u64, ()>, patterns: &Patterns) -> (found: Vec<
    Option<Vec<usize>>,
>)
    requires
        3 * center_square <= u64::MAX,
        3 * center_square == MATCHED_MAGIC_SUM ==> graph_nodes(*graph).len() < usize::MAX,
        3 * center_square == MATCHED_MAGIC_SUM ==> forall|k: int|
            0 <= k < patterns.two_cells_not_square@.len() ==> graph_nodes(
                #[trigger] patterns.two_cells_not_square@[k],
            ).len() > 0,
    ensures
        found@.map_values(|f: Option<Vec<usize>>| isomorphism_view(f)) == if 3 * center_square
            == MATCHED_MAGIC_SUM {
            pattern_matches(*graph, patterns.two_cells_not_square@)
        } else {
            Seq::empty()
        },
{
    let mut found: Vec<Option<Vec<usize>>> = Vec::new();
    let magic_sum = center_square * 3;
    if magic_sum != MATCHED_MAGIC_SUM {
        proof {
            assert(found@.map_values(|f: Option<Vec<usize>>| isomorphism_view(f)) =~= Seq::<Option<Seq<usize>>>::empty());
        }
        return found;
    }
    let list = &patterns.two_cells_not_square;
    let count = node_count(graph);
    let mut k: usize = 0;
    proof {
        assert(found@.map_values(|f: Option<Vec<usize>>| isomorphism_view(f)) =~= pattern_matches(
            *graph,
            list@.take(0),
        ));
    }
    while k < list.len()
        invariant
            0 <= k <= list@.len(),
            count == graph_nodes(*graph).len(),
            found@.map_values(|f: Option<Vec<usize>>| isomorphism_view(f)) == pattern_matches(
                *graph,
                list@.take(k as int),
            ),
            graph_nodes(*graph).len() < usize::MAX,
            forall|j: int| 0 <= j < list@.len() ==> graph_nodes(#[trigger] list@[j]).len() > 0,
        decreases list.len() - k,
    {
        let pattern = &list[k];
        proof {
            assert(list@.take(k + 1).drop_last() =~= list@.take(k as int));
            assert(list@.take(k + 1).last() == list@[k as int]);
        }
        if node_count(pattern) <= count {
            let ghost before = found@;
            let mapping = first_isomorphism(pattern, graph);
            found.push(mapping);
            proof {
                assert(found@.map_values(|f: Option<Vec<usize>>| isomorphism_view(f)) =~= before.map_values(
                    |f: Option<Vec<usize>>| isomorphism_view(f),
                ).push(isomorphism_view(mapping)));
            }
        }
        k = k + 1;
    }
    proof {
        assert(list@.take(list@.len() as int) =~= list@);
    }
    found
}

} // verus!
