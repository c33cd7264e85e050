//! The cycle resolver: what the engine cannot drain is a cycle of orders
//! that wait for each other. Three shapes are known and broken here.

use vstd::prelude::*;
use crate::dependency::MAX_ORDERS;
use crate::dependency::order_views;
use crate::dependency::tracks;
use crate::dependency::waits_for;
use crate::engine::awaited;
use crate::engine::lemma_pruned_tracks;
use crate::engine::prune;
use crate::graph::OrderGraph;
use crate::graph::follows_edges;
use crate::graph::graph_edges;
use crate::graph::graph_reaches;
use crate::graph::path_exists;
use crate::invariants::lemma_ring_only;
use crate::order::Order;
use crate::order::OrderType;
use crate::order::OrderView;
use crate::rules::AdjudicationError;
use crate::rules::break_cycles;
use crate::rules::break_order;
use crate::rules::carries;
use crate::rules::classified;
use crate::rules::closes;
use crate::rules::head_to_head;
use crate::rules::in_paradox;
use crate::rules::in_ring;
use crate::rules::lemma_break_later;
use crate::rules::paradox;
use crate::rules::reaches;
use crate::rules::ring_next;
use crate::rules::rival;
use crate::rules::rotating;
use crate::rules::successor;
use crate::rules::swap;
use crate::rules::unconvoyed;
use crate::rules::waiting_chain;

verus! {

/// Edges lead from node `a` to node `b` exactly where order `a` waits,
/// directly or through others, for order `b`.
pub proof fn lemma_paths_are_chains(g: OrderGraph, s: Seq<OrderView>, a: usize, b: usize)
    requires
        tracks(g, s),
        a < s.len(),
        b < s.len(),
    ensures
        path_exists(graph_edges(g), a, b) == reaches(s, a as int, b as int),
{
    let edges = graph_edges(g);
    if path_exists(edges, a, b) {
        let path = choose|path: Seq<usize>|
            path.len() >= 1 && path[0] == a && path.last() == b && #[trigger] follows_edges(edges, path);
        let chain = Seq::new(path.len(), |k: int| path[k] as int);
        assert(waiting_chain(s, chain));
    }
    if reaches(s, a as int, b as int) {
        let chain = choose|chain: Seq<int>|
            chain.len() >= 1 && chain[0] == a as int && chain.last() == b as int && #[trigger] waiting_chain(s, chain);
        let path = Seq::new(chain.len(), |k: int| chain[k] as usize);
        assert(follows_edges(edges, path));
    }
}

/// Whether unresolved convoy `c` carries unresolved move `m` and waits,
/// directly or through others, for that move.
pub fn is_paradox(graph: &OrderGraph, orders: &Vec<Order>, m: usize, c: usize) -> (yes: bool)
    requires
        tracks(*graph, order_views(orders@)),
        m < orders@.len(),
        c < orders@.len(),
    ensures
        yes == paradox(order_views(orders@), m as int, c as int),
{
    let mover = &orders[m];
    let convoy = &orders[c];
    if mover.is_resolved() || convoy.is_resolved() || mover.order_type() != OrderType::Move
        || !convoy.is_convoying(mover.source(), mover.target()) {
        return false;
    }
    proof {
        lemma_paths_are_chains(*graph, order_views(orders@), c, m);
    }
    graph_reaches(graph, c, m)
}

/// Whether order `i` is the move or the convoy of a convoy paradox.
pub fn order_in_paradox(graph: &OrderGraph, orders: &Vec<Order>, i: usize) -> (yes: bool)
    requires
        tracks(*graph, order_views(orders@)),
        i < orders@.len(),
    ensures
        yes == in_paradox(order_views(orders@), i as int),
{
    let ghost s = order_views(orders@);
    let mut k: usize = 0;
    while k < orders.len()
        invariant
            k <= orders@.len(),
            i < orders@.len(),
            s == order_views(orders@),
            tracks(*graph, s),
            forall|q: int| 0 <= q < k ==> !#[trigger] paradox(s, i as int, q),
            forall|q: int| 0 <= q < k ==> !#[trigger] paradox(s, q, i as int),
        decreases orders@.len() - k,
    {
        if is_paradox(graph, orders, i, k) || is_paradox(graph, orders, k, i) {
            return true;
        }
        k += 1;
    }
    false
}

/// Whether no convoy is ordered for move `i`.
pub fn is_unconvoyed(orders: &Vec<Order>, i: usize) -> (yes: bool)
    requires
        i < orders@.len(),
    ensures
        yes == unconvoyed(order_views(orders@), i as int),
{
    let ghost s = order_views(orders@);
    let me = &orders[i];
    let mut c: usize = 0;
    while c < orders.len()
        invariant
            c <= orders@.len(),
            i < orders@.len(),
            s == order_views(orders@),
            me@ == s[i as int],
            forall|q: int| 0 <= q < c ==> !#[trigger] carries(s, i as int, q),
        decreases orders@.len() - c,
    {
        if orders[c].is_convoying(me.source(), me.target()) {
            assert(carries(s, i as int, c as int));
            return false;
        }
        c += 1;
    }
    true
}

/// Whether order `i` is one of two unresolved moves into each other's
/// province, neither with a convoy.
pub fn is_head_to_head(orders: &Vec<Order>, i: usize) -> (yes: bool)
    requires
        i < orders@.len(),
    ensures
        yes == head_to_head(order_views(orders@), i as int),
{
    let ghost s = order_views(orders@);
    let me = &orders[i];
    if me.is_resolved() || me.order_type() != OrderType::Move || !is_unconvoyed(orders, i) {
        return false;
    }
    let mut j: usize = 0;
    while j < orders.len()
        invariant
            j <= orders@.len(),
            i < orders@.len(),
            s == order_views(orders@),
            me@ == s[i as int],
            !s[i as int].resolved,
            s[i as int].kind == OrderType::Move,
            unconvoyed(s, i as int),
            forall|q: int| 0 <= q < j ==> !#[trigger] swap(s, i as int, q),
        decreases orders@.len() - j,
    {
        let other = &orders[j];
        if !other.is_resolved() && other.order_type() == OrderType::Move && other.location()
            == me.target() && other.target() == me.location() && is_unconvoyed(orders, j) {
            assert(swap(s, i as int, j as int));
            return true;
        }
        j += 1;
    }
    false
}

/// The one order that move `x` waits for, where that order is a move out of
/// the destination of `x` to a province other than that of `x`.
fn ring_successor(graph: &OrderGraph, orders: &Vec<Order>, x: usize) -> (next: Option<usize>)
    requires
        tracks(*graph, order_views(orders@)),
        x < orders@.len(),
    ensures
        match next {
            Some(y) => y < orders@.len() && ring_next(order_views(orders@), x as int, y as int),
            None => forall|y: int| !#[trigger] ring_next(order_views(orders@), x as int, y),
        },
{
    let ghost s = order_views(orders@);
    let targets = awaited(graph, orders, x);
    if targets.len() == 0 {
        return None;
    }
    let y: usize = targets[0];
    let mut k: usize = 1;
    while k < targets.len()
        invariant
            1 <= k <= targets@.len(),
            y == targets@[0],
            s == order_views(orders@),
            s.len() <= MAX_ORDERS,
            forall|m: int| 0 <= m < targets@.len() ==> waits_for(s, x as int, #[trigger] targets@[m] as int),
            forall|m: int| 0 <= m < k ==> #[trigger] targets@[m] == y,
        decreases targets@.len() - k,
    {
        if targets[k] != y {
            return None;
        }
        k += 1;
    }
    let me = &orders[x];
    let other = &orders[y];
    if other.order_type() == OrderType::Move && other.location() == me.target() && other.target()
        != me.location() {
        Some(y)
    } else {
        None
    }
}

/// Whether order `x` can be part of a circular movement, and if so, the
/// order it waits for.
fn rotation(graph: &OrderGraph, orders: &Vec<Order>, x: usize) -> (next: Option<usize>)
    requires
        tracks(*graph, order_views(orders@)),
        x < orders@.len(),
    ensures
        match next {
            Some(y) => y < orders@.len() && rotating(order_views(orders@), x as int) && successor(
                order_views(orders@),
                x as int,
            ) == y,
            None => !rotating(order_views(orders@), x as int),
        },
{
    let ghost s = order_views(orders@);
    let me = &orders[x];
    if me.is_resolved() || me.order_type() != OrderType::Move || !is_unconvoyed(orders, x) {
        return None;
    }
    let mut p: usize = 0;
    while p < orders.len()
        invariant
            p <= orders@.len(),
            x < orders@.len(),
            s == order_views(orders@),
            me@ == s[x as int],
            forall|q: int| 0 <= q < p ==> !#[trigger] rival(s, x as int, q),
        decreases orders@.len() - p,
    {
        if p != x && orders[p].is_moving_into(me.target()) {
            assert(rival(s, x as int, p as int));
            return None;
        }
        p += 1;
    }
    let next = ring_successor(graph, orders, x);
    proof {
        if let Some(y) = next {
        }
    }
    next
}

/// Whether order `i` is part of a circular movement: following, from `i`,
/// each rotating move to the one it waits for leads back to `i`.
pub fn order_in_ring(graph: &OrderGraph, orders: &Vec<Order>, i: usize) -> (yes: bool)
    requires
        tracks(*graph, order_views(orders@)),
        i < orders@.len(),
    ensures
        yes == in_ring(order_views(orders@), i as int),
{
    let ghost s = order_views(orders@);
    let mut at: usize = i;
    let mut fuel: usize = orders.len();
    while fuel > 0
        invariant
            at < orders@.len(),
            i < orders@.len(),
            s == order_views(orders@),
            tracks(*graph, s),
            in_ring(s, i as int) == closes(s, i as int, at as int, fuel as nat),
        decreases fuel,
    {
        match rotation(graph, orders, at) {
            None => {
                return false;
            },
            Some(y) => {
                if y == i {
                    return true;
                }
                at = y;
                fuel -= 1;
            },
        }
    }
    false
}

/// Whether the cycle resolver knows what to do with order `i`.
pub fn order_is_classified(graph: &OrderGraph, orders: &Vec<Order>, i: usize) -> (yes: bool)
    requires
        tracks(*graph, order_views(orders@)),
        i < orders@.len(),
    ensures
        yes == classified(order_views(orders@), i as int),
{
    order_in_paradox(graph, orders, i) || is_head_to_head(orders, i) || order_in_ring(graph, orders, i)
}

/// Order `i` as one step of the cycle resolver leaves it.
pub fn order_after_break(graph: &OrderGraph, orders: &Vec<Order>, i: usize) -> (next: Order)
    requires
        tracks(*graph, order_views(orders@)),
        i < orders@.len(),
    ensures
        next@ == break_order(order_views(orders@), i as int),
{
    let o: Order = orders[i];
    proof {
        use_type_invariant(&o);
    }
    if order_in_paradox(graph, orders, i) {
        o.settled(o.order_type(), false, false)
    } else if is_head_to_head(orders, i) {
        o.settled(o.order_type(), false, false)
    } else if order_in_ring(graph, orders, i) {
        o.settled(o.order_type(), true, false)
    } else {
        o
    }
}

/// Only an unresolved move or convoy has a known place in a cycle.
pub proof fn lemma_classified_is_open(s: Seq<OrderView>, i: int)
    requires
        classified(s, i),
    ensures
        !s[i].resolved,
        s[i].kind == OrderType::Move || s[i].kind == OrderType::Convoy,
{
}

/// Breaks the cycles of known shape in what the engine could not drain, and
/// removes the edges of what that resolved.
///
/// A convoyed move fails, and its convoy with it, where the convoy waits,
/// directly or through others, for that very move. Two moves without
/// convoy into each other's province both fail, whatever their strength.
/// The moves of a circular movement, each without convoy or rival and
/// waiting only for the next, all succeed. Where no order has such a place,
/// the resolver reports the stall and changes nothing.
pub fn resolve_cycles(order_graph: &mut OrderGraph, orders: &mut Vec<Order>) -> (done: Result<(), AdjudicationError>)
    requires
        tracks(*old(order_graph), order_views(old(orders)@)),
    ensures
        tracks(*final(order_graph), order_views(final(orders)@)),
        match break_cycles(order_views(old(orders)@)) {
            Ok(broken) => done is Ok && order_views(final(orders)@) == broken,
            Err(e) => done == Err::<(), AdjudicationError>(e) && final(orders)@ == old(orders)@,
        },
        done is Ok ==> forall|m: int, c: int| #[trigger]
            paradox(order_views(old(orders)@), m, c) ==> {
                &&& final(orders)@[m]@.resolved
                &&& !final(orders)@[m]@.succeeded
                &&& final(orders)@[c]@.resolved
                &&& !final(orders)@[c]@.succeeded
            },
        done is Ok ==> forall|i: int, j: int| #[trigger]
            swap(order_views(old(orders)@), i, j) ==> {
                &&& final(orders)@[i]@.resolved
                &&& !final(orders)@[i]@.succeeded
                &&& !final(orders)@[i]@.dislodged
            },
        done is Ok ==> forall|i: int| #[trigger]
            in_ring(order_views(old(orders)@), i) ==> {
                &&& final(orders)@[i]@.resolved
                &&& final(orders)@[i]@.succeeded
                &&& !final(orders)@[i]@.dislodged
            },
{
    let ghost s = order_views(orders@);
    let mut next: Vec<Order> = Vec::new();
    let mut any = false;
    let mut i: usize = 0;
    while i < orders.len()
        invariant
            i <= orders@.len(),
            s == order_views(orders@),
            orders@ == old(orders)@,
            *order_graph == *old(order_graph),
            tracks(*order_graph, s),
            next@.len() == i,
            forall|k: int| 0 <= k < i ==> (#[trigger] next@[k])@ == break_order(s, k),
            forall|k: int| 0 <= k < i ==> (#[trigger] s[k]).wf(),
            any == exists|k: int| 0 <= k < i && #[trigger] classified(s, k),
        decreases orders@.len() - i,
    {
        let given: Order = orders[i];
        proof {
            use_type_invariant(&given);
        }
        let hit = order_is_classified(order_graph, orders, i);
        let o = order_after_break(order_graph, orders, i);
        next.push(o);
        any = any || hit;
        i += 1;
    }
    if !any {
        return Err(AdjudicationError::UnrecognizedCycle);
    }
    let ghost before = *order_graph;
    let ghost t = order_views(next@);
    proof {
        lemma_break_later(s);
        assert forall|i: int| #[trigger] in_ring(s, i) implies t[i].resolved && t[i].succeeded && !t[i].dislodged by {
            lemma_ring_only(s, i);
        }
    }
    prune(order_graph, &next);
    proof {
        lemma_pruned_tracks(before, *order_graph, s, t);
    }
    *orders = next;
    Ok(())
}

} // verus!
