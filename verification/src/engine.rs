//! The resolution engine: passes over the dependency graph that resolve
//! whatever no longer waits for anything but its own contest.

use vstd::prelude::*;
use crate::dependency::MAX_ORDERS;
use crate::dependency::identity_nodes;
use crate::dependency::order_depends_on;
use crate::dependency::order_views;
use crate::dependency::tracks;
use crate::dependency::waits_for;
use crate::graph::OrderGraph;
use crate::graph::graph_edge_count;
use crate::graph::graph_edge_endpoints;
use crate::graph::graph_edges;
use crate::graph::graph_neighbors;
use crate::graph::graph_nodes;
use crate::graph::graph_remove_edge;
use crate::order::Order;
use crate::order::OrderType;
use crate::order::OrderView;
use crate::province::ProvinceID;
use crate::rules::AdjudicationError;
use crate::rules::conquered;
use crate::rules::conqueror;
use crate::rules::contest_edge;
use crate::rules::contest_ready;
use crate::rules::drain;
use crate::rules::failed_convoy;
use crate::rules::gain;
use crate::rules::gain_among;
use crate::rules::has_dependent;
use crate::rules::is_free;
use crate::rules::is_settled;
use crate::rules::is_torn;
use crate::rules::later;
use crate::rules::lemma_pass_later;
use crate::rules::open_count;
use crate::rules::overflows;
use crate::rules::pass;
use crate::rules::pass_error;
use crate::rules::pass_order;
use crate::rules::ready_support;
use crate::rules::strengthened;
use crate::rules::takes_part;
use crate::rules::torn_support;
use crate::rules::wins;
use crate::rules::withstands;

verus! {

/// The orders that order `i` waits for, each of them at least once.
pub(crate) fn awaited(graph: &OrderGraph, orders: &Vec<Order>, i: usize) -> (targets: Vec<usize>)
    requires
        tracks(*graph, order_views(orders@)),
        i < orders@.len(),
    ensures
        forall|k: int| 0 <= k < targets@.len() ==> waits_for(order_views(orders@), i as int, #[trigger] targets@[k] as int),
        forall|j: int| #[trigger] waits_for(order_views(orders@), i as int, j) ==> targets@.contains(j as usize),
{
    let targets = graph_neighbors(graph, i, false);
    proof {
        let s = order_views(orders@);
        assert forall|k: int| 0 <= k < targets@.len() implies waits_for(s, i as int, #[trigger] targets@[k] as int) by {
            assert(targets@.contains(targets@[k]));
        }
    }
    targets
}

/// The orders that wait for order `j`, each of them at least once.
fn awaiting(graph: &OrderGraph, orders: &Vec<Order>, j: usize) -> (sources: Vec<usize>)
    requires
        tracks(*graph, order_views(orders@)),
        j < orders@.len(),
    ensures
        forall|k: int| 0 <= k < sources@.len() ==> waits_for(order_views(orders@), #[trigger] sources@[k] as int, j as int),
        forall|x: int| #[trigger] waits_for(order_views(orders@), x, j as int) ==> sources@.contains(x as usize),
{
    let sources = graph_neighbors(graph, j, true);
    proof {
        let s = order_views(orders@);
        assert forall|k: int| 0 <= k < sources@.len() implies waits_for(s, #[trigger] sources@[k] as int, j as int) by {
            assert(sources@.contains(sources@[k]));
        }
    }
    sources
}

/// Whether order `i` is unresolved and waits for nothing: its node has no
/// outgoing edge.
pub fn node_is_free(graph: &OrderGraph, orders: &Vec<Order>, i: usize) -> (free: bool)
    requires
        tracks(*graph, order_views(orders@)),
        i < orders@.len(),
    ensures
        free == is_free(order_views(orders@), i as int),
{
    if orders[i].is_resolved() {
        return false;
    }
    let targets = awaited(graph, orders, i);
    proof {
        let s = order_views(orders@);
        if targets@.len() != 0 {
            assert(waits_for(s, i as int, targets@[0] as int));
        }
    }
    targets.len() == 0
}

/// Whether `x` waits for `y` only to be measured against it.
fn is_contest_edge(x: &Order, y: &Order) -> (yes: bool)
    ensures
        yes == contest_edge(x@, y@),
{
    if x.order_type() == OrderType::Move {
        !y.is_convoying(x.source(), x.target()) && (y.is_moving_into(x.target()) || (y.location()
            == x.target() && y.order_type() != OrderType::Move))
    } else {
        y.is_moving_into(x.location())
    }
}

/// Whether order `i` is unresolved and waits only for orders it is measured
/// against.
pub fn node_is_settled(graph: &OrderGraph, orders: &Vec<Order>, i: usize) -> (settled: bool)
    requires
        tracks(*graph, order_views(orders@)),
        i < orders@.len(),
    ensures
        settled == is_settled(order_views(orders@), i as int),
{
    if orders[i].is_resolved() {
        return false;
    }
    let ghost s = order_views(orders@);
    let targets = awaited(graph, orders, i);
    let mut k: usize = 0;
    while k < targets.len()
        invariant
            k <= targets@.len(),
            i < orders@.len(),
            s == order_views(orders@),
            forall|m: int| 0 <= m < targets@.len() ==> waits_for(s, i as int, #[trigger] targets@[m] as int),
            forall|m: int| 0 <= m < k ==> contest_edge(s[i as int], s[#[trigger] targets@[m] as int]),
        decreases targets@.len() - k,
    {
        let t: usize = targets[k];
        if !is_contest_edge(&orders[i], &orders[t]) {
            return false;
        }
        k += 1;
    }
    true
}

/// Whether the contest for province `b` can be decided.
pub fn contest_is_ready(graph: &OrderGraph, orders: &Vec<Order>, b: ProvinceID) -> (ready: bool)
    requires
        tracks(*graph, order_views(orders@)),
    ensures
        ready == contest_ready(order_views(orders@), b),
{
    let ghost s = order_views(orders@);
    let mut p: usize = 0;
    while p < orders.len()
        invariant
            p <= orders@.len(),
            s == order_views(orders@),
            tracks(*graph, s),
            forall|q: int| 0 <= q < p && #[trigger] takes_part(s, q, b) ==> is_settled(s, q),
        decreases orders@.len() - p,
    {
        let o = &orders[p];
        if !o.is_resolved() && (o.is_moving_into(b) || (o.order_type() != OrderType::Move
            && o.location() == b)) {
            if !node_is_settled(graph, orders, p) {
                assert(takes_part(s, p as int, b));
                return false;
            }
        }
        p += 1;
    }
    true
}

/// Whether move `i` takes its destination: no convoy of it failed, and it
/// is strictly stronger than every other order that contests the
/// destination.
pub fn move_wins(orders: &Vec<Order>, i: usize) -> (won: bool)
    requires
        i < orders@.len(),
    ensures
        won == wins(order_views(orders@), i as int),
{
    let ghost s = order_views(orders@);
    let me = &orders[i];
    let mut p: usize = 0;
    while p < orders.len()
        invariant
            p <= orders@.len(),
            i < orders@.len(),
            s == order_views(orders@),
            me@ == s[i as int],
            forall|q: int| 0 <= q < p ==> !#[trigger] failed_convoy(s, i as int, q),
            forall|q: int| 0 <= q < p ==> !#[trigger] withstands(s, i as int, q),
        decreases orders@.len() - p,
    {
        let o = &orders[p];
        if o.is_convoying(me.source(), me.target()) && (!o.has_succeeded() || o.is_dislodged()) {
            assert(failed_convoy(s, i as int, p as int));
            return false;
        }
        let left = o.order_type() == OrderType::Move && o.is_resolved() && o.has_succeeded();
        if p != i && (o.is_moving_into(me.target()) || (o.location() == me.target() && !left))
            && o.strength() >= me.strength() {
            assert(withstands(s, i as int, p as int));
            return false;
        }
        p += 1;
    }
    true
}

/// Whether province `b` is taken in this pass: its contest can be decided,
/// and an unresolved move into it wins.
pub fn province_is_conquered(graph: &OrderGraph, orders: &Vec<Order>, b: ProvinceID) -> (taken: bool)
    requires
        tracks(*graph, order_views(orders@)),
    ensures
        taken == conquered(order_views(orders@), b),
{
    if !contest_is_ready(graph, orders, b) {
        return false;
    }
    let ghost s = order_views(orders@);
    let mut p: usize = 0;
    while p < orders.len()
        invariant
            p <= orders@.len(),
            s == order_views(orders@),
            contest_ready(s, b),
            forall|q: int| 0 <= q < p ==> !#[trigger] conqueror(s, q, b),
        decreases orders@.len() - p,
    {
        let o = &orders[p];
        if !o.is_resolved() && o.is_moving_into(b) && move_wins(orders, p) {
            assert(conqueror(s, p as int, b));
            return true;
        }
        p += 1;
    }
    false
}

/// Whether some order waits for order `j`: its node has an incoming edge.
pub fn node_has_dependent(graph: &OrderGraph, orders: &Vec<Order>, j: usize) -> (has: bool)
    requires
        tracks(*graph, order_views(orders@)),
        j < orders@.len(),
    ensures
        has == has_dependent(order_views(orders@), j as int),
{
    let sources = awaiting(graph, orders, j);
    proof {
        let s = order_views(orders@);
        if sources@.len() != 0 {
            assert(waits_for(s, sources@[0] as int, j as int));
        }
    }
    sources.len() > 0
}

/// Whether two different orders wait for order `j`.
pub fn node_is_torn(graph: &OrderGraph, orders: &Vec<Order>, j: usize) -> (torn: bool)
    requires
        tracks(*graph, order_views(orders@)),
        j < orders@.len(),
    ensures
        torn == is_torn(order_views(orders@), j as int),
{
    let ghost s = order_views(orders@);
    let sources = awaiting(graph, orders, j);
    if sources.len() == 0 {
        return false;
    }
    let first: usize = sources[0];
    let mut k: usize = 1;
    while k < sources.len()
        invariant
            1 <= k <= sources@.len(),
            first == sources@[0],
            s == order_views(orders@),
            s.len() <= MAX_ORDERS,
            forall|m: int| 0 <= m < sources@.len() ==> waits_for(s, #[trigger] sources@[m] as int, j as int),
            forall|m: int| 0 <= m < k ==> #[trigger] sources@[m] == first,
        decreases sources@.len() - k,
    {
        if sources[k] != first {
            return true;
        }
        k += 1;
    }
    false
}

/// Whether order `j` is a support that this pass gives.
pub fn support_is_ready(graph: &OrderGraph, orders: &Vec<Order>, j: usize) -> (ready: bool)
    requires
        tracks(*graph, order_views(orders@)),
        j < orders@.len(),
    ensures
        ready == ready_support(order_views(orders@), j as int),
{
    orders[j].order_type() == OrderType::Support && node_is_free(graph, orders, j)
}

/// The number of supports that order `i` receives in this pass.
pub fn support_gain(graph: &OrderGraph, orders: &Vec<Order>, i: usize) -> (count: usize)
    requires
        tracks(*graph, order_views(orders@)),
        i < orders@.len(),
        orders@.len() <= MAX_ORDERS,
    ensures
        count == gain(order_views(orders@), i as int),
{
    let ghost s = order_views(orders@);
    let mut count: usize = 0;
    let mut j: usize = 0;
    while j < orders.len()
        invariant
            j <= orders@.len(),
            i < orders@.len(),
            orders@.len() <= MAX_ORDERS,
            s == order_views(orders@),
            tracks(*graph, s),
            count == gain_among(s, i as int, j as nat),
            count <= j,
        decreases orders@.len() - j,
    {
        if j != i && !orders[i].is_resolved() && !orders[j].is_resolved() && order_depends_on(
            &orders[i],
            &orders[j],
        ) && support_is_ready(graph, orders, j) {
            count += 1;
        }
        j += 1;
    }
    count
}

/// The error that stops a pass over the orders, if any.
pub fn pass_check(graph: &OrderGraph, orders: &Vec<Order>) -> (stopped: Option<AdjudicationError>)
    requires
        tracks(*graph, order_views(orders@)),
    ensures
        stopped == pass_error(order_views(orders@)),
{
    let ghost s = order_views(orders@);
    let mut j: usize = 0;
    while j < orders.len()
        invariant
            j <= orders@.len(),
            s == order_views(orders@),
            tracks(*graph, s),
            forall|q: int| 0 <= q < j ==> !#[trigger] torn_support(s, q),
        decreases orders@.len() - j,
    {
        if support_is_ready(graph, orders, j) && node_is_torn(graph, orders, j) {
            assert(torn_support(s, j as int));
            return Some(AdjudicationError::InvariantViolation);
        }
        j += 1;
    }
    let mut i: usize = 0;
    while i < orders.len()
        invariant
            i <= orders@.len(),
            s == order_views(orders@),
            tracks(*graph, s),
            forall|q: int| !#[trigger] torn_support(s, q),
            forall|q: int| 0 <= q < i ==> !#[trigger] overflows(s, q),
        decreases orders@.len() - i,
    {
        let received: usize = support_gain(graph, orders, i);
        if received > (u8::MAX - orders[i].strength()) as usize {
            assert(overflows(s, i as int));
            return Some(AdjudicationError::StrengthOverflow);
        }
        i += 1;
    }
    None
}

/// Order `i` with the supports added that it receives in this pass, one
/// increment for each.
fn strengthen(graph: &OrderGraph, orders: &Vec<Order>, i: usize) -> (next: Order)
    requires
        tracks(*graph, order_views(orders@)),
        i < orders@.len(),
        !orders@[i as int]@.resolved,
        !overflows(order_views(orders@), i as int),
    ensures
        next@ == strengthened(order_views(orders@), i as int),
{
    let received: usize = support_gain(graph, orders, i);
    let mut next: Order = orders[i];
    let mut k: usize = 0;
    while k < received
        invariant
            k <= received,
            i < orders@.len(),
            !orders@[i as int]@.resolved,
            orders@[i as int]@.strength + received <= u8::MAX,
            next@ == (OrderView { strength: orders@[i as int]@.strength + k as nat, ..orders@[i as int]@ }),
        decreases received - k,
    {
        next.increase_strength();
        k += 1;
    }
    next
}

/// Order `i` as one pass leaves it.
pub fn order_after_pass(graph: &OrderGraph, orders: &Vec<Order>, i: usize) -> (next: Order)
    requires
        tracks(*graph, order_views(orders@)),
        i < orders@.len(),
        pass_error(order_views(orders@)) is None,
    ensures
        next@ == pass_order(order_views(orders@), i as int),
{
    let o: Order = orders[i];
    proof {
        use_type_invariant(&o);
    }
    let kind = o.order_type();
    if o.is_resolved() {
        let left = kind == OrderType::Move && o.has_succeeded();
        if !left && province_is_conquered(graph, orders, o.location()) {
            o.settled(kind, o.has_succeeded(), true)
        } else {
            o
        }
    } else if kind == OrderType::Move {
        if contest_is_ready(graph, orders, o.target()) {
            let won = move_wins(orders, i);
            o.settled(kind, won, false)
        } else {
            strengthen(graph, orders, i)
        }
    } else if node_is_free(graph, orders, i) {
        if kind == OrderType::Support {
            if node_has_dependent(graph, orders, i) {
                o.settled(kind, true, false)
            } else {
                o.settled(OrderType::RequiredOrderNotGiven, false, false)
            }
        } else {
            o.settled(kind, kind != OrderType::IllegalOrder, false)
        }
    } else if contest_is_ready(graph, orders, o.location()) {
        let lost = province_is_conquered(graph, orders, o.location());
        if kind == OrderType::Support {
            o.settled(OrderType::SupportCut, false, lost)
        } else {
            o.settled(kind, !lost && kind != OrderType::IllegalOrder, lost)
        }
    } else {
        strengthen(graph, orders, i)
    }
}

/// The order set as one pass leaves it. Every order is computed from the
/// set as it was before the pass.
pub fn run_pass(graph: &OrderGraph, orders: &Vec<Order>) -> (next: Vec<Order>)
    requires
        tracks(*graph, order_views(orders@)),
        pass_error(order_views(orders@)) is None,
    ensures
        order_views(next@) == pass(order_views(orders@)),
{
    let ghost s = order_views(orders@);
    let mut next: Vec<Order> = Vec::new();
    let mut i: usize = 0;
    while i < orders.len()
        invariant
            i <= orders@.len(),
            s == order_views(orders@),
            tracks(*graph, s),
            pass_error(s) is None,
            next@.len() == i,
            forall|k: int| 0 <= k < i ==> (#[trigger] next@[k])@ == pass_order(s, k),
        decreases orders@.len() - i,
    {
        let o = order_after_pass(graph, orders, i);
        next.push(o);
        i += 1;
    }
    next
}

/// One more order counted.
pub proof fn lemma_open_count_step(s: Seq<OrderView>, k: int)
    requires
        0 <= k < s.len(),
    ensures
        open_count(s.take(k + 1)) == open_count(s.take(k)) + if s[k].resolved {
            0nat
        } else {
            1nat
        },
{
    assert(s.take(k + 1).drop_last() =~= s.take(k));
}

/// The number of unresolved orders.
pub fn count_open(orders: &Vec<Order>) -> (count: usize)
    ensures
        count == open_count(order_views(orders@)),
{
    let ghost s = order_views(orders@);
    let mut count: usize = 0;
    let mut i: usize = 0;
    while i < orders.len()
        invariant
            i <= orders@.len(),
            s == order_views(orders@),
            count == open_count(s.take(i as int)),
            count <= i,
        decreases orders@.len() - i,
    {
        proof {
            lemma_open_count_step(s, i as int);
        }
        if !orders[i].is_resolved() {
            count += 1;
        }
        i += 1;
    }
    assert(s.take(s.len() as int) =~= s);
    count
}

/// Whether the graph's edges are those of `before` that join two orders
/// which are unresolved in `s`.
pub open spec fn pruned(before: Seq<(usize, usize)>, after: Seq<(usize, usize)>, s: Seq<OrderView>) -> bool {
    forall|x: usize, y: usize| #[trigger]
        after.contains((x, y)) <==> before.contains((x, y)) && x < s.len() && y < s.len()
            && !s[x as int].resolved && !s[y as int].resolved
}

/// Removes from the graph every edge that starts or ends at a resolved
/// order. The nodes stay, so that every order keeps its index.
pub fn prune(graph: &mut OrderGraph, orders: &Vec<Order>)
    requires
        graph_nodes(*old(graph)) == identity_nodes(orders@.len()),
        forall|x: usize, y: usize| #[trigger]
            graph_edges(*old(graph)).contains((x, y)) ==> x < orders@.len() && y < orders@.len(),
    ensures
        graph_nodes(*final(graph)) == graph_nodes(*old(graph)),
        pruned(graph_edges(*old(graph)), graph_edges(*final(graph)), order_views(orders@)),
{
    let ghost s = order_views(orders@);
    let ghost before = graph_edges(*graph);
    let mut e: usize = graph_edge_count(graph);
    while e > 0
        invariant
            e <= graph_edges(*graph).len(),
            s == order_views(orders@),
            before == graph_edges(*old(graph)),
            graph_nodes(*graph) == graph_nodes(*old(graph)),
            forall|x: usize, y: usize| #[trigger]
                before.contains((x, y)) ==> x < orders@.len() && y < orders@.len(),
            forall|k: int|
                e <= k < graph_edges(*graph).len() ==> !s[(#[trigger] graph_edges(*graph)[k]).0 as int].resolved
                    && !s[graph_edges(*graph)[k].1 as int].resolved,
            forall|k: int|
                0 <= k < graph_edges(*graph).len() ==> before.contains(#[trigger] graph_edges(*graph)[k]),
            forall|x: usize, y: usize| #[trigger]
                before.contains((x, y)) && !s[x as int].resolved && !s[y as int].resolved
                    ==> graph_edges(*graph).contains((x, y)),
        decreases e,
    {
        e -= 1;
        let ghost edges = graph_edges(*graph);
        let ends = graph_edge_endpoints(graph, e);
        let gone = match ends {
            Some((a, b)) => orders[a].is_resolved() || orders[b].is_resolved(),
            None => false,
        };
        if gone {
            graph_remove_edge(graph, e);
            proof {
                let after = graph_edges(*graph);
                assert forall|x: usize, y: usize| #[trigger]
                    before.contains((x, y)) && !s[x as int].resolved && !s[y as int].resolved implies after.contains(
                    (x, y),
                ) by {
                    let m = choose|m: int| 0 <= m < edges.len() && edges[m] == (x, y);
                    if m == edges.len() - 1 {
                        assert(after[e as int] == (x, y));
                    } else {
                        assert(after[m] == (x, y));
                    }
                }
            }
        }
    }
    proof {
        let after = graph_edges(*graph);
    }
}

/// A graph that tracked an order set tracks what follows it, once pruned.
pub proof fn lemma_pruned_tracks(before: OrderGraph, after: OrderGraph, s: Seq<OrderView>, t: Seq<OrderView>)
    requires
        tracks(before, s),
        later(s, t),
        graph_nodes(after) == graph_nodes(before),
        pruned(graph_edges(before), graph_edges(after), t),
    ensures
        tracks(after, t),
{
}

/// Drains the graph: makes passes as long as each resolves an order, and
/// after each removes the edges of what it resolved.
///
/// In a pass, a support that waits for nothing is given to the order that
/// waits for it; an order that stays and waits for nothing holds; a move
/// is decided, together with whatever stands in its destination, as soon as
/// all that contest the destination are settled. Where a support that is
/// ready has two orders waiting for it, or an order would outgrow its
/// strength, the engine stops with that error and leaves orders and graph
/// as they were before that pass.
pub fn resolve_all_non_dependant_edges(order_graph: &mut OrderGraph, orders: &mut Vec<Order>) -> (done: Result<(), AdjudicationError>)
    requires
        tracks(*old(order_graph), order_views(old(orders)@)),
    ensures
        order_views(final(orders)@) == drain(order_views(old(orders)@)).0,
        tracks(*final(order_graph), order_views(final(orders)@)),
        match drain(order_views(old(orders)@)).1 {
            Some(e) => done == Err::<(), AdjudicationError>(e),
            None => done is Ok,
        },
{
    let mut open: usize = count_open(orders);
    loop
        invariant
            tracks(*order_graph, order_views(orders@)),
            open == open_count(order_views(orders@)),
            drain(order_views(orders@)) == drain(order_views(old(orders)@)),
        decreases open,
    {
        let ghost s = order_views(orders@);
        match pass_check(order_graph, orders) {
            Some(e) => {
                return Err(e);
            },
            None => {},
        }
        let next = run_pass(order_graph, orders);
        let left: usize = count_open(&next);
        if left >= open {
            return Ok(());
        }
        let ghost before = *order_graph;
        proof {
            lemma_pass_later(s);
        }
        prune(order_graph, &next);
        proof {
            lemma_pruned_tracks(before, *order_graph, s, order_views(next@));
        }
        *orders = next;
        open = left;
    }
}

} // verus!
