//! Which order waits for which, and the graph that records it.

use vstd::prelude::*;
use crate::graph::OrderGraph;
use crate::graph::graph_add_edge;
use crate::graph::graph_add_node;
use crate::graph::graph_edges;
use crate::graph::graph_new;
use crate::graph::graph_nodes;
use crate::order::Order;
use crate::order::OrderType;
use crate::order::OrderView;

verus! {

/// The graph node of each order, by the order's position.
pub type NodeList = Vec<usize>;

/// The largest order set: one order for each province.
pub const MAX_ORDERS: usize = 256;

/// The orders of a set as mathematical values.
pub open spec fn order_views(orders: Seq<Order>) -> Seq<OrderView> {
    Seq::new(orders.len(), |i: int| orders[i]@)
}

/// Whether order `x` cannot be resolved before order `y` is.
///
/// A move waits for every support of that move, for whatever stands in its
/// destination, for every other move into its destination, for a move that
/// comes the opposite way, and for every convoy of that move. An order that
/// stays in place waits for every move into its province and, unless it is
/// illegal, for every support of its hold.
pub open spec fn depends_on(x: OrderView, y: OrderView) -> bool {
    match x.kind {
        OrderType::Move => {
            ||| y.supports_move(x.source, x.target)
            ||| y.location == x.target
            ||| y.moves_into(x.target)
            ||| y.kind == OrderType::Move && y.source == x.target && y.target == x.source
            ||| y.convoys(x.source, x.target)
        },
        OrderType::IllegalOrder => y.moves_into(x.location),
        _ => y.supports_hold(x.location) || y.moves_into(x.location),
    }
}

/// Whether `x` waits for `y` in the order set `s`: two distinct orders, both
/// unresolved, of which the first depends on the second.
pub open spec fn waits_for(s: Seq<OrderView>, x: int, y: int) -> bool {
    &&& 0 <= x < s.len()
    &&& 0 <= y < s.len()
    &&& x != y
    &&& !s[x].resolved
    &&& !s[y].resolved
    &&& depends_on(s[x], s[y])
}

/// The node weights of a graph over `n` orders: each node carries its own
/// index, the position of its order.
pub open spec fn identity_nodes(n: nat) -> Seq<usize> {
    Seq::new(n, |i: int| i as usize)
}

/// Whether `edges` are the dependencies between all orders of `s`, resolved
/// or not, each once.
pub open spec fn all_dependencies(edges: Seq<(usize, usize)>, s: Seq<OrderView>) -> bool {
    &&& edges.no_duplicates()
    &&& forall|x: usize, y: usize| #[trigger]
        edges.contains((x, y)) <==> x < s.len() && y < s.len() && x != y && depends_on(
            s[x as int],
            s[y as int],
        )
}

/// Whether the graph holds exactly what is still open in `s`: a node for
/// each order, and an edge from `x` to `y` where `x` waits for `y`.
pub open spec fn tracks(g: OrderGraph, s: Seq<OrderView>) -> bool {
    &&& s.len() <= MAX_ORDERS
    &&& graph_nodes(g) == identity_nodes(s.len())
    &&& forall|x: usize, y: usize| #[trigger]
        graph_edges(g).contains((x, y)) <==> waits_for(s, x as int, y as int)
}

/// Whether order `x` cannot be resolved before order `y` is.
pub fn order_depends_on(x: &Order, y: &Order) -> (waits: bool)
    ensures
        waits == depends_on(x@, y@),
{
    match x.order_type() {
        OrderType::Move => {
            y.is_support_moving(x.source(), x.target()) || y.location() == x.target()
                || y.is_moving_into(x.target()) || (y.order_type() == OrderType::Move
                && y.source() == x.target() && y.target() == x.source()) || y.is_convoying(
                x.source(),
                x.target(),
            )
        },
        OrderType::IllegalOrder => y.is_moving_into(x.location()),
        _ => y.is_support_holding(x.location()) || y.is_moving_into(x.location()),
    }
}

/// Builds the dependency graph of an order set: one node for each order, in
/// order, and one edge from each order to each other order that it depends
/// on. Cycles are kept as they are.
pub fn create_order_dependency_graph(orders: &Vec<Order>) -> (built: (OrderGraph, NodeList))
    requires
        orders@.len() <= MAX_ORDERS,
    ensures
        graph_nodes(built.0) == identity_nodes(orders@.len()),
        built.1@ == identity_nodes(orders@.len()),
        all_dependencies(graph_edges(built.0), order_views(orders@)),
{
    let n: usize = orders.len();
    let ghost s = order_views(orders@);
    let mut graph = graph_new();
    let mut nodes: NodeList = Vec::new();
    let mut i: usize = 0;
    while i < n
        invariant
            n == orders@.len(),
            n <= MAX_ORDERS,
            i <= n,
            graph_nodes(graph) == identity_nodes(i as nat),
            nodes@ == identity_nodes(i as nat),
            graph_edges(graph) == Seq::<(usize, usize)>::empty(),
        decreases n - i,
    {
        let index = graph_add_node(&mut graph, i);
        nodes.push(index);
        i += 1;
    }
    let mut x: usize = 0;
    while x < n
        invariant
            n == orders@.len(),
            n <= MAX_ORDERS,
            x <= n,
            s == order_views(orders@),
            graph_nodes(graph) == identity_nodes(n as nat),
            graph_edges(graph).len() <= x * MAX_ORDERS,
            graph_edges(graph).no_duplicates(),
            forall|a: usize, b: usize| #[trigger]
                graph_edges(graph).contains((a, b)) <==> a < x && b < n && a != b && depends_on(
                    s[a as int],
                    s[b as int],
                ),
        decreases n - x,
    {
        let mut y: usize = 0;
        while y < n
            invariant
                n == orders@.len(),
                n <= MAX_ORDERS,
                x < n,
                y <= n,
                s == order_views(orders@),
                graph_nodes(graph) == identity_nodes(n as nat),
                graph_edges(graph).len() <= x * MAX_ORDERS + y,
                graph_edges(graph).no_duplicates(),
                forall|a: usize, b: usize| #[trigger]
                    graph_edges(graph).contains((a, b)) <==> (a < x || (a == x && b < y)) && a < n
                        && b < n && a != b && depends_on(s[a as int], s[b as int]),
            decreases n - y,
        {
            if x != y && order_depends_on(&orders[x], &orders[y]) {
                let ghost before = graph_edges(graph);
                graph_add_edge(&mut graph, x, y);
                assert(forall|a: usize, b: usize| #[trigger]
                    graph_edges(graph).contains((a, b)) <==> before.contains((a, b)) || (a, b) == (
                        x,
                        y,
                    )) by {
                    assert(graph_edges(graph).last() == (x, y));
                    assert(forall|k: int| 0 <= k < before.len() ==> graph_edges(graph)[k] == before[k]);
                }
                assert(graph_edges(graph).no_duplicates()) by {
                    assert(!before.contains((x, y)));
                }
            }
            y += 1;
        }
        x += 1;
    }
    (graph, nodes)
}

} // verus!
