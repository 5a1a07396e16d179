//! Maximum matchings of undirected graphs, computed by petgraph.
//!
//! The graph is petgraph's own; what it holds is known to the verifier
//! through `graph_nodes` and `graph_edges` only, and what petgraph computes on
//! it is taken on trust from its documentation.

use petgraph::algo::maximum_matching;
use petgraph::graph::{Graph, NodeIndex, UnGraph};
use petgraph::Undirected;
use vstd::prelude::*;

verus! {

/// `Graph` of petgraph, as a type of which the verifier knows nothing but
/// what `graph_nodes` and `graph_edges` say.
#[verifier::external_type_specification]
#[verifier::external_body]
#[verifier::reject_recursive_types(N)]
#[verifier::reject_recursive_types(E)]
#[verifier::reject_recursive_types(Ty)]
#[verifier::reject_recursive_types(Ix)]
pub struct ExGraph<N, E, Ty, Ix>(Graph<N, E, Ty, Ix>);

/// `Undirected` of petgraph, the marker of graphs with undirected edges.
#[verifier::external_type_specification]
#[verifier::external_body]
pub struct ExUndirected(Undirected);

/// The number of nodes of a graph; its nodes are numbered from 0.
pub uninterp spec fn graph_nodes(g: Graph<(), i32, Undirected, usize>) -> nat;

/// The edges of a graph, in the order in which they were added: the two end
/// nodes and the weight of each.
pub uninterp spec fn graph_edges(g: Graph<(), i32, Undirected, usize>) -> Seq<(usize, usize, i32)>;

/// The maximum matching that petgraph computes for the graph with `nodes`
/// nodes and the edges `edges`, as the list of its matched pairs.
pub uninterp spec fn maximum_matching_of(nodes: nat, edges: Seq<(usize, usize, i32)>) -> Seq<
    (usize, usize),
>;

/// The pair `(a, b)` is joined by an edge of `edges`.
pub open spec fn joined(edges: Seq<(usize, usize, i32)>, a: usize, b: usize) -> bool {
    exists|k: int|
        0 <= k < edges.len() && (((#[trigger] edges[k]).0 == a && edges[k].1 == b) || (edges[k].0
            == b && edges[k].1 == a))
}

/// No node occurs in two pairs, nor twice in one.
pub open spec fn pairs_disjoint(pairs: Seq<(usize, usize)>) -> bool {
    &&& forall|k: int| 0 <= k < pairs.len() ==> (#[trigger] pairs[k]).0 != pairs[k].1
    &&& forall|j: int, k: int|
        0 <= j < k < pairs.len() ==> {
            let p = #[trigger] pairs[j];
            let r = #[trigger] pairs[k];
            p.0 != r.0 && p.0 != r.1 && p.1 != r.0 && p.1 != r.1
        }
}

/// `pairs` is a matching of the graph: pairs of different nodes, the smaller
/// first, each joined by an edge, and no node in two of them.
pub open spec fn is_matching(
    pairs: Seq<(usize, usize)>,
    nodes: nat,
    edges: Seq<(usize, usize, i32)>,
) -> bool {
    &&& forall|k: int|
        0 <= k < pairs.len() ==> (#[trigger] pairs[k]).0 < pairs[k].1 && pairs[k].1 < nodes
            && joined(edges, pairs[k].0, pairs[k].1)
    &&& pairs_disjoint(pairs)
}

/// `pairs` is a maximum matching of the graph: a matching, and no matching
/// of the graph has more pairs.
pub open spec fn is_maximum_matching(
    pairs: Seq<(usize, usize)>,
    nodes: nat,
    edges: Seq<(usize, usize, i32)>,
) -> bool {
    &&& is_matching(pairs, nodes, edges)
    &&& forall|other: Seq<(usize, usize)>|
        #[trigger] is_matching(other, nodes, edges) ==> other.len() <= pairs.len()
}

/// A maximum matching of a graph with an edge between two different nodes is
/// not empty.
pub proof fn lemma_maximum_matching_not_empty(
    pairs: Seq<(usize, usize)>,
    nodes: nat,
    edges: Seq<(usize, usize, i32)>,
)
    requires
        is_maximum_matching(pairs, nodes, edges),
        has_proper_edge(edges),
        forall|k: int|
            0 <= k < edges.len() ==> (#[trigger] edges[k]).0 < nodes && edges[k].1 < nodes,
    ensures
        pairs.len() > 0,
{
    let k = choose|k: int| 0 <= k < edges.len() && (#[trigger] edges[k]).0 != edges[k].1;
    let e = edges[k];
    let pair = if e.0 < e.1 {
        (e.0, e.1)
    } else {
        (e.1, e.0)
    };
    let one = seq![pair];
    assert(joined(edges, pair.0, pair.1));
    assert(is_matching(one, nodes, edges));
}

/// Some edge joins two different nodes.
pub open spec fn has_proper_edge(edges: Seq<(usize, usize, i32)>) -> bool {
    exists|k: int| 0 <= k < edges.len() && (#[trigger] edges[k]).0 != edges[k].1
}

/// `Graph::with_capacity` of petgraph, for no node and no edge: a graph
/// without nodes and edges. Its nodes and edges are numbered by `usize`, so
/// that it can take any number of them.
#[verifier::external_body]
pub(crate) fn new_graph() -> (g: UnGraph<(), i32, usize>)
    ensures
        graph_nodes(g) == 0,
        graph_edges(g) == Seq::<(usize, usize, i32)>::empty(),
{
    Graph::with_capacity(0, 0)
}

/// `Graph::add_node` of petgraph: the graph gets one more node, numbered
/// after those it has. With `usize` for its indices petgraph sets no limit
/// to the nodes.
#[verifier::external_body]
pub(crate) fn add_node(g: &mut UnGraph<(), i32, usize>)
    ensures
        graph_nodes(*final(g)) == graph_nodes(*old(g)) + 1,
        graph_edges(*final(g)) == graph_edges(*old(g)),
{
    g.add_node(());
}

/// `Graph::add_edge` of petgraph: the graph gets one more edge, between the
/// nodes `a` and `b`. petgraph panics when a node does not exist, which is
/// left out; with `usize` for its indices it sets no limit to the edges.
#[verifier::external_body]
pub(crate) fn add_edge(g: &mut UnGraph<(), i32, usize>, a: usize, b: usize, weight: i32)
    requires
        a < graph_nodes(*old(g)),
        b < graph_nodes(*old(g)),
    ensures
        graph_nodes(*final(g)) == graph_nodes(*old(g)),
        graph_edges(*final(g)) == graph_edges(*old(g)).push((a, b, weight)),
{
    g.add_edge(NodeIndex::new(a), NodeIndex::new(b), weight);
}

/// `maximum_matching` of petgraph, with the matched pairs as its `edges`
/// lists them: by ascending first node, the smaller node of each pair first.
/// The result is a matching of the graph with the most pairs that a matching
/// of the graph can have. petgraph panics when the nodes use up `usize`,
/// which is left out.
#[verifier::external_body]
pub(crate) fn matched_pairs(g: &UnGraph<(), i32, usize>) -> (pairs: Vec<(usize, usize)>)
    requires
        graph_nodes(*g) < usize::MAX,
    ensures
        pairs@ == maximum_matching_of(graph_nodes(*g), graph_edges(*g)),
        is_maximum_matching(pairs@, graph_nodes(*g), graph_edges(*g)),
{
    maximum_matching(g).edges().map(|(a, b)| (a.index(), b.index())).collect()
}

/// Computes a maximum matching of the undirected graph with the nodes `0` to
/// `nodes - 1` and the edges `edges`, each given by its two end nodes and its
/// weight. Returns the matched pairs by ascending first node, the smaller
/// node of each pair first.
pub fn maximum_matching_pairs(nodes: usize, edges: &Vec<(usize, usize, i32)>) -> (pairs: Vec<
    (usize, usize),
>)
    requires
        nodes < usize::MAX,
        forall|k: int| 0 <= k < edges@.len() ==> (#[trigger] edges@[k]).0 < nodes && edges@[k].1
            < nodes,
    ensures
        pairs@ == maximum_matching_of(nodes as nat, edges@),
        is_maximum_matching(pairs@, nodes as nat, edges@),
{
    let mut graph = new_graph();
    let mut k: usize = 0;
    while k < nodes
        invariant
            k <= nodes,
            graph_nodes(graph) == k,
            graph_edges(graph) == Seq::<(usize, usize, i32)>::empty(),
        decreases nodes - k,
    {
        add_node(&mut graph);
        k += 1;
    }
    let mut k: usize = 0;
    while k < edges.len()
        invariant
            k <= edges@.len(),
            forall|j: int|
                0 <= j < edges@.len() ==> (#[trigger] edges@[j]).0 < nodes && edges@[j].1 < nodes,
            graph_nodes(graph) == nodes,
            graph_edges(graph) == edges@.take(k as int),
        decreases edges@.len() - k,
    {
        let edge = edges[k];
        add_edge(&mut graph, edge.0, edge.1, edge.2);
        k += 1;
        assert(edges@.take(k as int) =~= edges@.take(k - 1).push(edges@[k - 1]));
    }
    assert(edges@.take(k as int) =~= edges@);
    matched_pairs(&graph)
}

} // verus!
