//! The dependency graph's storage: a `petgraph` graph whose nodes carry the
//! position of an order in the order set and whose edges are unlabelled.
//!
//! The contracts of this file are assumed, not proved: each restates what
//! the `petgraph` source shows of the one function that its body calls. The
//! rest of the library is proved against them.

use vstd::prelude::*;
use petgraph::graph::Graph;
use petgraph::graph::NodeIndex;
use petgraph::graph::EdgeIndex;
use petgraph::Directed;
use petgraph::Direction;
use petgraph::algo::has_path_connecting;

verus! {

/// `petgraph::graph::Graph`, opaque to the verifier.
#[verifier::external_type_specification]
#[verifier::external_body]
#[verifier::reject_recursive_types(N)]
#[verifier::reject_recursive_types(E)]
#[verifier::reject_recursive_types(Ty)]
#[verifier::reject_recursive_types(Ix)]
pub struct ExGraph<N, E, Ty, Ix>(Graph<N, E, Ty, Ix>);

/// `petgraph::Directed`, the marker of directed graphs.
#[verifier::external_type_specification]
#[verifier::external_body]
pub struct ExDirected(Directed);

/// A directed graph over order positions.
pub type OrderGraph = Graph<usize, (), Directed, u32>;

/// The node weights of a graph, by node index.
pub uninterp spec fn graph_nodes(g: OrderGraph) -> Seq<usize>;

/// The edges of a graph as (source, target) node indices, by edge index.
pub uninterp spec fn graph_edges(g: OrderGraph) -> Seq<(usize, usize)>;

/// `Graph::new`: a graph without nodes or edges.
#[verifier::external_body]
pub(crate) fn graph_new() -> (g: OrderGraph)
    ensures
        graph_nodes(g) == Seq::<usize>::empty(),
        graph_edges(g) == Seq::<(usize, usize)>::empty(),
{
    Graph::new()
}

/// `Graph::add_node`: appends a node with the given weight and returns its
/// index, which is the number of nodes before the call.
#[verifier::external_body]
pub(crate) fn graph_add_node(g: &mut OrderGraph, weight: usize) -> (index: usize)
    requires
        graph_nodes(*old(g)).len() < 0xffff_ffff,
    ensures
        index == graph_nodes(*old(g)).len(),
        graph_nodes(*final(g)) == graph_nodes(*old(g)).push(weight),
        graph_edges(*final(g)) == graph_edges(*old(g)),
{
    g.add_node(weight).index()
}

/// `Graph::add_edge`: appends an edge from node `a` to node `b`. The graph
/// keeps parallel edges; nodes are untouched.
#[verifier::external_body]
pub(crate) fn graph_add_edge(g: &mut OrderGraph, a: usize, b: usize)
    requires
        a < graph_nodes(*old(g)).len(),
        b < graph_nodes(*old(g)).len(),
        graph_edges(*old(g)).len() < 0xffff_ffff,
    ensures
        graph_nodes(*final(g)) == graph_nodes(*old(g)),
        graph_edges(*final(g)) == graph_edges(*old(g)).push((a, b)),
{
    g.add_edge(NodeIndex::new(a), NodeIndex::new(b), ());
}

/// `Graph::edge_count`: the number of edges.
#[verifier::external_body]
pub(crate) fn graph_edge_count(g: &OrderGraph) -> (count: usize)
    ensures
        count == graph_edges(*g).len(),
{
    g.edge_count()
}

/// `Graph::edge_endpoints`: source and target of the edge with index `e`,
/// which exists where `e` is below the number of edges.
#[verifier::external_body]
pub(crate) fn graph_edge_endpoints(g: &OrderGraph, e: usize) -> (ends: Option<(usize, usize)>)
    requires
        e < graph_edges(*g).len(),
    ensures
        ends == Some(graph_edges(*g)[e as int]),
{
    g.edge_endpoints(EdgeIndex::new(e)).map(|(a, b)| (a.index(), b.index()))
}

/// `Graph::remove_edge`: removes the edge with index `e`; the last edge
/// takes its index. Nodes are untouched.
#[verifier::external_body]
pub(crate) fn graph_remove_edge(g: &mut OrderGraph, e: usize)
    requires
        e < graph_edges(*old(g)).len(),
    ensures
        graph_nodes(*final(g)) == graph_nodes(*old(g)),
        graph_edges(*final(g)) == graph_edges(*old(g)).update(
            e as int,
            graph_edges(*old(g)).last(),
        ).drop_last(),
{
    g.remove_edge(EdgeIndex::new(e));
}

/// The edge between node `a` and its neighbor `b`: from `a` to `b`, or the
/// other way where the neighbors asked for are those of incoming edges.
pub open spec fn edge_to_neighbor(a: usize, b: usize, incoming: bool) -> (usize, usize) {
    if incoming {
        (b, a)
    } else {
        (a, b)
    }
}

/// `Graph::neighbors_directed`: the nodes at the other end of the edges
/// that start at node `a`, or of those that end there where `incoming` is
/// set; one for each such edge, in no stated order.
#[verifier::external_body]
pub(crate) fn graph_neighbors(g: &OrderGraph, a: usize, incoming: bool) -> (neighbors: Vec<usize>)
    requires
        a < graph_nodes(*g).len(),
    ensures
        forall|b: usize| neighbors@.contains(b) <==> graph_edges(*g).contains(edge_to_neighbor(a, b, incoming)),
{
    let direction = if incoming { Direction::Incoming } else { Direction::Outgoing };
    g.neighbors_directed(NodeIndex::new(a), direction).map(|n| n.index()).collect()
}

/// Whether `path` leads along edges: each node but the last has an edge to
/// the next.
pub open spec fn follows_edges(edges: Seq<(usize, usize)>, path: Seq<usize>) -> bool {
    forall|k: int| 0 <= k < path.len() - 1 ==> edges.contains((#[trigger] path[k], path[k + 1]))
}

/// Whether edges lead from node `a` to node `b`; every node reaches itself.
pub open spec fn path_exists(edges: Seq<(usize, usize)>, a: usize, b: usize) -> bool {
    exists|path: Seq<usize>|
        path.len() >= 1 && path[0] == a && path.last() == b && #[trigger] follows_edges(edges, path)
}

/// `petgraph::algo::has_path_connecting`: whether edges lead from node `a`
/// to node `b`, which is so when the two are equal.
#[verifier::external_body]
pub(crate) fn graph_reaches(g: &OrderGraph, a: usize, b: usize) -> (reached: bool)
    requires
        a < graph_nodes(*g).len(),
        b < graph_nodes(*g).len(),
    ensures
        reached == path_exists(graph_edges(*g), a, b),
{
    has_path_connecting(g, NodeIndex::new(a), NodeIndex::new(b), None)
}

} // verus!
