//! Directed graphs over node numbers, kept and sorted by the `petgraph`
//! crate.
//!
//! The four functions that call `petgraph` are taken on trust: their
//! contracts say what the documentation of `petgraph` says of the function
//! called. The two lemmas at the end are proved from those contracts.

use petgraph::graph::{Graph, NodeIndex};
use petgraph::Directed;
use vstd::prelude::*;

verus! {

/// `petgraph::graph::Graph`: nodes numbered from zero in the order they
/// were added, and edges between them.
#[verifier::external_type_specification]
#[verifier::external_body]
#[verifier::reject_recursive_types(N)]
#[verifier::reject_recursive_types(E)]
#[verifier::reject_recursive_types(Ty)]
#[verifier::reject_recursive_types(Ix)]
pub struct ExGraph<N, E, Ty, Ix>(Graph<N, E, Ty, Ix>);

/// `petgraph::Directed`: the marker of graphs whose edges have a direction.
#[verifier::external_type_specification]
#[verifier::external_body]
pub struct ExDirected(Directed);

/// The number of nodes of a graph.
pub uninterp spec fn graph_nodes(graph: Graph<(), (), Directed, usize>) -> nat;

/// The edges of a graph: the pairs of a node and one of its successors.
pub uninterp spec fn graph_edges(graph: Graph<(), (), Directed, usize>) -> Set<(int, int)>;

/// Whether `walk` follows edges from each of its nodes to the next.
pub open spec fn is_walk(edges: Set<(int, int)>, walk: Seq<int>) -> bool {
    forall|i: int| 0 <= i < walk.len() - 1 ==> edges.contains((#[trigger] walk[i], walk[i + 1]))
}

/// Whether `node` takes part in a cycle: a walk over one edge or more
/// leads from it back to it.
pub open spec fn on_cycle(edges: Set<(int, int)>, node: int) -> bool {
    exists|walk: Seq<int>|
        walk.len() >= 2 && is_walk(edges, walk) && walk.first() == node && walk.last() == node
}

/// Whether `order` lists no node twice and, for each edge, both ends with
/// the source before the successor.
pub open spec fn is_topological(edges: Set<(int, int)>, order: Seq<int>) -> bool {
    &&& order.no_duplicates()
    &&& forall|a: int, b: int| #[trigger]
        edges.contains((a, b)) ==> order.contains(a) && order.contains(b) && order.index_of(a)
            < order.index_of(b)
}

/// The node numbers of a list as integers.
pub open spec fn as_ints(nodes: Seq<usize>) -> Seq<int> {
    nodes.map_values(|node: usize| node as int)
}

/// `Graph::with_capacity(0, 0)`: a graph without nodes or edges.
#[verifier::external_body]
pub(crate) fn empty_graph() -> (graph: Graph<(), (), Directed, usize>)
    ensures
        graph_nodes(graph) == 0,
        graph_edges(graph) == Set::<(int, int)>::empty(),
{
    Graph::with_capacity(0, 0)
}

/// `Graph::add_node`: adds a node and hands back its number, which is the
/// number of nodes that the graph had. The edges stay.
#[verifier::external_body]
pub(crate) fn add_node(graph: &mut Graph<(), (), Directed, usize>) -> (node: usize)
    ensures
        node == graph_nodes(*old(graph)),
        graph_nodes(*final(graph)) == graph_nodes(*old(graph)) + 1,
        graph_edges(*final(graph)) == graph_edges(*old(graph)),
{
    graph.add_node(()).index()
}

/// `Graph::add_edge`: adds an edge from `from` to `to`. Both must be nodes
/// of the graph. The nodes stay.
#[verifier::external_body]
pub(crate) fn add_edge(graph: &mut Graph<(), (), Directed, usize>, from: usize, to: usize)
    requires
        from < graph_nodes(*old(graph)),
        to < graph_nodes(*old(graph)),
    ensures
        graph_nodes(*final(graph)) == graph_nodes(*old(graph)),
        graph_edges(*final(graph)) == graph_edges(*old(graph)).insert((from as int, to as int)),
{
    graph.add_edge(NodeIndex::new(from), NodeIndex::new(to), ());
}

/// `petgraph::algo::toposort`: for a graph without cycles the nodes in an
/// order in which each comes before its successors; otherwise a node that
/// takes part in a cycle, a node with an edge to itself included.
#[verifier::external_body]
pub(crate) fn toposort(graph: &Graph<(), (), Directed, usize>) -> (sorted: Result<Vec<usize>, usize>)
    ensures
        match sorted {
            Ok(order) => is_topological(graph_edges(*graph), as_ints(order@)),
            Err(node) => node < graph_nodes(*graph) && on_cycle(graph_edges(*graph), node as int),
        },
{
    match petgraph::algo::toposort(graph, None) {
        Ok(order) => Ok(order.into_iter().map(|node| node.index()).collect()),
        Err(cycle) => Err(cycle.node_id().index()),
    }
}

/// An order as [`is_topological`] asks for leaves no node on a cycle.
pub proof fn lemma_topological_acyclic(edges: Set<(int, int)>, order: Seq<int>, node: int)
    requires
        is_topological(edges, order),
    ensures
        !on_cycle(edges, node),
{
    if on_cycle(edges, node) {
        let walk = choose|walk: Seq<int>|
            walk.len() >= 2 && is_walk(edges, walk) && walk.first() == node && walk.last() == node;
        lemma_walk_ascends(edges, order, walk, walk.len() - 1);
    }
}

/// Along a walk the places in a topological order ascend.
proof fn lemma_walk_ascends(edges: Set<(int, int)>, order: Seq<int>, walk: Seq<int>, upto: int)
    requires
        is_topological(edges, order),
        is_walk(edges, walk),
        1 <= upto < walk.len(),
    ensures
        order.index_of(walk[0]) < order.index_of(walk[upto]),
    decreases upto,
{
    assert(edges.contains((walk[upto - 1], walk[upto])));
    if upto > 1 {
        lemma_walk_ascends(edges, order, walk, upto - 1);
    }
}

} // verus!
