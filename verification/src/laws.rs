//! What holds of every resolution, proved from the rules.

use vstd::prelude::*;
use crate::adjudication::Outcome;
use crate::adjudication::all_resolved;
use crate::adjudication::lemma_none_open;
use crate::adjudication::outcome_of;
use crate::invariants::backing;
use crate::invariants::dislodged_by_taking;
use crate::invariants::in_the_way;
use crate::invariants::leavers_escape;
use crate::invariants::lemma_break_dislodged;
use crate::invariants::lemma_break_leavers;
use crate::invariants::lemma_break_paradoxes;
use crate::invariants::lemma_break_strengths;
use crate::invariants::lemma_break_swaps;
use crate::invariants::lemma_break_taken_clear;
use crate::invariants::lemma_break_taken_once;
use crate::invariants::lemma_break_triangles;
use crate::invariants::lemma_break_wf;
use crate::invariants::lemma_distinct_later;
use crate::invariants::lemma_fewer_open;
use crate::invariants::lemma_no_backing;
use crate::invariants::lemma_no_torn_support;
use crate::invariants::lemma_opposed_later;
use crate::invariants::lemma_pass_dislodged;
use crate::invariants::lemma_pass_leavers;
use crate::invariants::lemma_pass_paradoxes;
use crate::invariants::lemma_pass_strengths;
use crate::invariants::lemma_pass_swaps;
use crate::invariants::lemma_pass_taken_clear;
use crate::invariants::lemma_pass_taken_once;
use crate::invariants::lemma_pass_triangles;
use crate::invariants::lemma_pass_wf;
use crate::invariants::lemma_triangle_later;
use crate::invariants::opposed;
use crate::invariants::paradoxes_fail;
use crate::invariants::strengths_counted;
use crate::invariants::swaps_bounce;
use crate::invariants::taken_clear;
use crate::invariants::taken_once;
use crate::invariants::took;
use crate::invariants::triangle;
use crate::invariants::triangles_turn;
use crate::order::OrderType;
use crate::order::OrderView;
use crate::rules::AdjudicationError;
use crate::rules::all_wf;
use crate::rules::as_given;
use crate::rules::break_cycles;
use crate::rules::classified;
use crate::rules::distinct_locations;
use crate::rules::drain;
use crate::rules::later;
use crate::rules::lemma_break_later;
use crate::rules::lemma_later_chain;
use crate::rules::lemma_pass_later;
use crate::rules::open_count;
use crate::rules::paradox;
use crate::rules::pass;
use crate::rules::pass_error;
use crate::rules::resolve;
use crate::rules::rival;
use crate::rules::torn_support;
use crate::rules::vacated;

verus! {

/// Everything that resolution keeps true of an order set.
#[verifier::opaque]
pub open spec fn lawful(s: Seq<OrderView>) -> bool {
    &&& all_wf(s)
    &&& swaps_bounce(s)
    &&& leavers_escape(s)
    &&& taken_once(s)
    &&& taken_clear(s)
    &&& dislodged_by_taking(s)
    &&& triangles_turn(s)
    &&& strengths_counted(s)
}

/// A lawful order set is well formed.
pub proof fn lemma_lawful_wf(s: Seq<OrderView>)
    requires
        lawful(s),
    ensures
        all_wf(s),
{
    reveal(lawful);
}

/// The orders as the players gave them are lawful.
pub proof fn lemma_given_lawful(s: Seq<OrderView>)
    requires
        as_given(s),
    ensures
        lawful(s),
{
    reveal(lawful);
    assert forall|i: int| 0 <= i < s.len() implies (#[trigger] s[i]).strength == 1 + backing(s, i) by {
        lemma_no_backing(s, i, s.len());
    }
}

/// A pass that no error stops keeps an order set lawful.
pub proof fn lemma_pass_lawful(s: Seq<OrderView>)
    requires
        lawful(s),
        pass_error(s) is None,
    ensures
        lawful(pass(s)),
{
    reveal(lawful);
    lemma_pass_wf(s);
    lemma_pass_swaps(s);
    lemma_pass_leavers(s);
    lemma_pass_taken_once(s);
    lemma_pass_taken_clear(s);
    lemma_pass_dislodged(s);
    lemma_pass_triangles(s);
    lemma_pass_strengths(s);
}

/// A step of the cycle resolver keeps an order set lawful.
pub proof fn lemma_break_lawful(s: Seq<OrderView>)
    requires
        lawful(s),
        break_cycles(s) is Ok,
    ensures
        lawful(break_cycles(s)->Ok_0),
{
    reveal(lawful);
    lemma_break_wf(s);
    lemma_break_swaps(s);
    lemma_break_leavers(s);
    lemma_break_taken_once(s);
    lemma_break_taken_clear(s);
    lemma_break_dislodged(s);
    lemma_break_triangles(s);
    lemma_break_strengths(s);
}

/// The engine's fixpoint keeps an order set lawful and takes it to a later
/// one.
pub proof fn lemma_drain_lawful(s: Seq<OrderView>)
    requires
        lawful(s),
    ensures
        lawful(drain(s).0),
        later(s, drain(s).0),
    decreases open_count(s),
{
    if pass_error(s) is None && open_count(pass(s)) < open_count(s) {
        lemma_pass_lawful(s);
        lemma_pass_later(s);
        lemma_drain_lawful(pass(s));
        lemma_later_chain(s, pass(s), drain(pass(s)).0);
    }
}

/// Every resolution of a lawful order set ends in a lawful, later order set
/// in which every order is resolved.
pub proof fn lemma_resolve_lawful(s: Seq<OrderView>)
    requires
        lawful(s),
        resolve(s) is Ok,
    ensures
        lawful(resolve(s)->Ok_0),
        later(s, resolve(s)->Ok_0),
        all_resolved(resolve(s)->Ok_0),
    decreases open_count(s),
{
    let d = drain(s).0;
    lemma_drain_lawful(s);
    if open_count(d) == 0 {
        lemma_none_open(d);
    } else {
        let c = break_cycles(d)->Ok_0;
        lemma_break_lawful(d);
        lemma_break_later(d);
        lemma_later_chain(s, d, c);
        lemma_resolve_lawful(c);
        lemma_later_chain(s, c, resolve(c)->Ok_0);
    }
}

/// What a resolution of the orders as given ends in: a later order set in
/// which every order is resolved, and of which everything holds that
/// resolution keeps true.
pub proof fn lemma_resolution(orders: Seq<OrderView>)
    requires
        as_given(orders),
        resolve(orders) is Ok,
    ensures
        later(orders, resolve(orders)->Ok_0),
        all_resolved(resolve(orders)->Ok_0),
        all_wf(resolve(orders)->Ok_0),
        swaps_bounce(resolve(orders)->Ok_0),
        leavers_escape(resolve(orders)->Ok_0),
        taken_once(resolve(orders)->Ok_0),
        taken_clear(resolve(orders)->Ok_0),
        dislodged_by_taking(resolve(orders)->Ok_0),
        triangles_turn(resolve(orders)->Ok_0),
        strengths_counted(resolve(orders)->Ok_0),
{
    lemma_given_lawful(orders);
    lemma_resolve_lawful(orders);
    reveal(lawful);
}

/// The strength of every order, once all are resolved, is one more than the
/// number of supports of that order that succeeded, where the players gave
/// each province at most one order.
pub proof fn law_strength_counts_supports(orders: Seq<OrderView>, i: int)
    requires
        as_given(orders),
        distinct_locations(orders),
        resolve(orders) is Ok,
        0 <= i < orders.len(),
    ensures
        resolve(orders)->Ok_0[i].resolved,
        resolve(orders)->Ok_0[i].strength == 1 + backing(resolve(orders)->Ok_0, i),
{
    let last = resolve(orders)->Ok_0;
    lemma_resolution(orders);
    lemma_distinct_later(orders, last);
}

/// Of two moves into one province, at most one ends as a success.
pub proof fn law_one_move_takes_a_province(orders: Seq<OrderView>, i: int, p: int)
    requires
        as_given(orders),
        resolve(orders) is Ok,
        0 <= i < orders.len(),
        0 <= p < orders.len(),
        i != p,
        orders[i].kind == OrderType::Move,
        orders[p].kind == OrderType::Move,
        orders[i].target == orders[p].target,
    ensures
        !(outcome_of(resolve(orders)->Ok_0[i]) == Outcome::Success && outcome_of(resolve(orders)->Ok_0[p])
            == Outcome::Success),
{
    let last = resolve(orders)->Ok_0;
    lemma_resolution(orders);
    if last[i].succeeded {
        assert(took(last, i));
        assert(rival(last, i, p));
    }
}

/// Where a move ends as a success, the order of the unit that stood in its
/// destination ends as dislodged, unless that order is a move that ends as
/// a success itself, where the players gave each province at most one
/// order.
pub proof fn law_taken_province_is_cleared(orders: Seq<OrderView>, i: int, k: int)
    requires
        as_given(orders),
        distinct_locations(orders),
        resolve(orders) is Ok,
        0 <= i < orders.len(),
        0 <= k < orders.len(),
        orders[i].kind == OrderType::Move,
        orders[k].location == orders[i].target,
        outcome_of(resolve(orders)->Ok_0[i]) == Outcome::Success,
    ensures
        outcome_of(resolve(orders)->Ok_0[k]) == Outcome::Dislodged || (orders[k].kind == OrderType::Move
            && outcome_of(resolve(orders)->Ok_0[k]) == Outcome::Success),
{
    let last = resolve(orders)->Ok_0;
    lemma_resolution(orders);
    lemma_distinct_later(orders, last);
    assert(took(last, i));
    assert(in_the_way(last, i, k));
}

/// A unit ends as dislodged exactly where a move into its province
/// succeeded and its own order is no move that succeeded, where the players
/// gave each province at most one order.
pub proof fn law_dislodged_exactly_where_taken(orders: Seq<OrderView>, k: int)
    requires
        as_given(orders),
        distinct_locations(orders),
        resolve(orders) is Ok,
        0 <= k < orders.len(),
    ensures
        resolve(orders)->Ok_0[k].dislodged <==> !vacated(resolve(orders)->Ok_0[k]) && exists|i: int| #[trigger]
            took(resolve(orders)->Ok_0, i) && resolve(orders)->Ok_0[i].target == orders[k].location,
{
    let last = resolve(orders)->Ok_0;
    lemma_resolution(orders);
    lemma_distinct_later(orders, last);
    if !vacated(last[k]) && exists|i: int| #[trigger] took(last, i) && last[i].target == orders[k].location {
        let i = choose|i: int| #[trigger] took(last, i) && last[i].target == orders[k].location;
        assert(in_the_way(last, i, k));
    }
}

/// Two moves into each other's province, neither with a convoy, both fail,
/// whatever their strength: each ends as bounced or, where a third unit
/// takes its province, as dislodged. Where no other move enters either
/// province, both end as bounced.
pub proof fn law_head_to_head_bounces(orders: Seq<OrderView>, i: int, j: int)
    requires
        as_given(orders),
        resolve(orders) is Ok,
        opposed(orders, i, j),
    ensures
        resolve(orders)->Ok_0[i].resolved && !resolve(orders)->Ok_0[i].succeeded,
        resolve(orders)->Ok_0[j].resolved && !resolve(orders)->Ok_0[j].succeeded,
        outcome_of(resolve(orders)->Ok_0[i]) == Outcome::Bounced || outcome_of(resolve(orders)->Ok_0[i])
            == Outcome::Dislodged,
        outcome_of(resolve(orders)->Ok_0[j]) == Outcome::Bounced || outcome_of(resolve(orders)->Ok_0[j])
            == Outcome::Dislodged,
        (forall|p: int| !rival(orders, i, p) && !rival(orders, j, p)) ==> outcome_of(
            resolve(orders)->Ok_0[i],
        ) == Outcome::Bounced && outcome_of(resolve(orders)->Ok_0[j]) == Outcome::Bounced,
{
    let last = resolve(orders)->Ok_0;
    lemma_resolution(orders);
    lemma_opposed_later(orders, last, i, j);
    if forall|p: int| !rival(orders, i, p) && !rival(orders, j, p) {
        if last[j].dislodged {
            let m = choose|m: int| #[trigger] took(last, m) && last[m].target == last[j].location;
            assert(rival(orders, i, m));
        }
        if last[i].dislodged {
            let m = choose|m: int| #[trigger] took(last, m) && last[m].target == last[i].location;
            assert(rival(orders, j, m));
        }
    }
}

/// Three moves in a circle, each into the province of the next, none with
/// a convoy or with a rival for its destination, all end as successes,
/// where the players gave each province at most one order.
pub proof fn law_circular_movement_succeeds(orders: Seq<OrderView>, i: int, j: int, k: int)
    requires
        as_given(orders),
        distinct_locations(orders),
        resolve(orders) is Ok,
        triangle(orders, i, j, k),
    ensures
        outcome_of(resolve(orders)->Ok_0[i]) == Outcome::Success,
        outcome_of(resolve(orders)->Ok_0[j]) == Outcome::Success,
        outcome_of(resolve(orders)->Ok_0[k]) == Outcome::Success,
{
    let last = resolve(orders)->Ok_0;
    lemma_resolution(orders);
    lemma_distinct_later(orders, last);
    lemma_triangle_later(orders, last, i, j, k);
    assert(triangle(last, j, k, i));
    assert(triangle(last, k, i, j));
}

/// The engine's fixpoint leaves every convoy paradox to the cycle resolver.
pub proof fn lemma_drain_paradoxes(given: Seq<OrderView>, s: Seq<OrderView>)
    requires
        lawful(s),
        given.len() == s.len(),
        paradoxes_fail(given, s),
    ensures
        paradoxes_fail(given, drain(s).0),
    decreases open_count(s),
{
    if pass_error(s) is None && open_count(pass(s)) < open_count(s) {
        lemma_lawful_wf(s);
        lemma_pass_paradoxes(given, s);
        lemma_pass_lawful(s);
        lemma_drain_paradoxes(given, pass(s));
    }
}

/// Every resolution fails the move and the convoy of every convoy paradox.
pub proof fn lemma_resolve_paradoxes(given: Seq<OrderView>, s: Seq<OrderView>)
    requires
        lawful(s),
        given.len() == s.len(),
        paradoxes_fail(given, s),
        resolve(s) is Ok,
    ensures
        paradoxes_fail(given, resolve(s)->Ok_0),
    decreases open_count(s),
{
    let d = drain(s).0;
    lemma_drain_lawful(s);
    lemma_drain_paradoxes(given, s);
    if open_count(d) != 0 {
        let c = break_cycles(d)->Ok_0;
        lemma_break_lawful(d);
        lemma_break_paradoxes(given, d);
        lemma_resolve_paradoxes(given, c);
    }
}

/// A convoyed move fails, and its convoy with it, where the convoy waits,
/// directly or through others, for that very move: both are resolved, and
/// neither succeeds.
pub proof fn law_convoy_paradox_fails(orders: Seq<OrderView>, m: int, c: int)
    requires
        as_given(orders),
        resolve(orders) is Ok,
        paradox(orders, m, c),
    ensures
        resolve(orders)->Ok_0[m].resolved && !resolve(orders)->Ok_0[m].succeeded,
        resolve(orders)->Ok_0[c].resolved && !resolve(orders)->Ok_0[c].succeeded,
        outcome_of(resolve(orders)->Ok_0[m]) == Outcome::Bounced || outcome_of(resolve(orders)->Ok_0[m])
            == Outcome::Dislodged,
        outcome_of(resolve(orders)->Ok_0[c]) == Outcome::Bounced || outcome_of(resolve(orders)->Ok_0[c])
            == Outcome::Dislodged,
{
    lemma_given_lawful(orders);
    lemma_resolve_paradoxes(orders, orders);
    lemma_resolution(orders);
}

/// Where no province has two orders, the engine's fixpoint finds no support
/// with two orders waiting for it.
pub proof fn lemma_drain_no_violation(s: Seq<OrderView>)
    requires
        lawful(s),
        distinct_locations(s),
    ensures
        drain(s).1 != Some(AdjudicationError::InvariantViolation),
    decreases open_count(s),
{
    lemma_lawful_wf(s);
    assert forall|j: int| !#[trigger] torn_support(s, j) by {
        lemma_no_torn_support(s, j);
    }
    if pass_error(s) is None && open_count(pass(s)) < open_count(s) {
        lemma_pass_lawful(s);
        lemma_pass_later(s);
        lemma_distinct_later(s, pass(s));
        lemma_drain_no_violation(pass(s));
    }
}

/// Where no province has two orders, no resolution finds a support with
/// two orders waiting for it.
pub proof fn lemma_resolve_no_violation(s: Seq<OrderView>)
    requires
        lawful(s),
        distinct_locations(s),
    ensures
        resolve(s) != Err::<Seq<OrderView>, AdjudicationError>(AdjudicationError::InvariantViolation),
    decreases open_count(s),
{
    let (d, stopped) = drain(s);
    lemma_drain_no_violation(s);
    lemma_drain_lawful(s);
    lemma_distinct_later(s, d);
    if stopped is None && open_count(d) != 0 && break_cycles(d) is Ok {
        let c = break_cycles(d)->Ok_0;
        if open_count(c) < open_count(s) {
            lemma_break_lawful(d);
            lemma_break_later(d);
            lemma_distinct_later(d, c);
            lemma_resolve_no_violation(c);
        }
    }
}

/// Where the players gave each province at most one order, the adjudication
/// never fails because a support has two orders waiting for it.
pub proof fn law_one_order_per_province_is_consistent(orders: Seq<OrderView>)
    requires
        as_given(orders),
        distinct_locations(orders),
    ensures
        resolve(orders) != Err::<Seq<OrderView>, AdjudicationError>(AdjudicationError::InvariantViolation),
{
    lemma_given_lawful(orders);
    lemma_resolve_no_violation(orders);
}

/// Every step of the cycle resolver that does not fail resolves an order:
/// a stall is never left as it is.
pub proof fn law_cycle_step_resolves(s: Seq<OrderView>)
    requires
        all_wf(s),
        break_cycles(s) is Ok,
    ensures
        open_count(break_cycles(s)->Ok_0) < open_count(s),
{
    let t = break_cycles(s)->Ok_0;
    lemma_break_later(s);
    let i = choose|i: int| #[trigger] classified(s, i);
    crate::cycles::lemma_classified_is_open(s, i);
    assert(t[i].resolved);
    lemma_fewer_open(s, t, s.len() as int);
    assert(s.take(s.len() as int) =~= s);
    assert(t.take(t.len() as int) =~= t);
}

/// The engine's fixpoint leaves no more orders unresolved than it found.
pub proof fn lemma_drain_fewer_open(s: Seq<OrderView>)
    ensures
        open_count(drain(s).0) <= open_count(s),
    decreases open_count(s),
{
    if pass_error(s) is None && open_count(pass(s)) < open_count(s) {
        lemma_drain_fewer_open(pass(s));
    }
}

/// The resolution goes on after every step of the cycle resolver that does
/// not fail: engine and cycle resolver alternate until an error stops them
/// or no order is left unresolved.
pub proof fn law_resolution_alternates(s: Seq<OrderView>)
    requires
        lawful(s),
    ensures
        resolve(s) == if drain(s).1 is Some {
            Err::<Seq<OrderView>, AdjudicationError>(drain(s).1->0)
        } else if open_count(drain(s).0) == 0 {
            Ok(drain(s).0)
        } else if break_cycles(drain(s).0) is Ok {
            resolve(break_cycles(drain(s).0)->Ok_0)
        } else {
            Err(AdjudicationError::UnrecognizedCycle)
        },
{
    let d = drain(s).0;
    lemma_drain_lawful(s);
    lemma_lawful_wf(d);
    lemma_drain_fewer_open(s);
    if drain(s).1 is None && open_count(d) != 0 && break_cycles(d) is Ok {
        law_cycle_step_resolves(d);
    }
}

} // verus!
