//! The adjudication of one turn, from the orders as given to their final
//! outcomes, and the report of those outcomes.

use vstd::prelude::*;
use crate::cycles::resolve_cycles;
use crate::dependency::MAX_ORDERS;
use crate::dependency::create_order_dependency_graph;
use crate::dependency::order_views;
use crate::dependency::tracks;
use crate::engine::count_open;
use crate::engine::prune;
use crate::engine::resolve_all_non_dependant_edges;
use crate::order::Order;
use crate::order::OrderType;
use crate::order::OrderView;
use crate::province::ProvinceID;
use crate::rules::AdjudicationError;
use crate::rules::distinct_locations;
use crate::rules::open_count;
use crate::rules::resolve;
use crate::rules::shares;

verus! {

/// How an order ended.
#[derive(Clone, Copy, PartialEq, Eq, Structural, Debug)]
pub enum Outcome {
    /// The order did what it was given for, and the unit was not dislodged.
    Success,
    /// The order failed, and the unit stays where it was.
    Bounced,
    /// The unit was driven out of its province.
    Dislodged,
    /// The support was cut, and the unit stays where it was.
    SupportCut,
}

/// The final outcome of one order.
#[derive(Clone, Copy, PartialEq, Eq, Structural, Debug)]
pub struct OrderResult {
    /// The province of the ordered unit.
    pub location: ProvinceID,
    /// How the order ended.
    pub outcome: Outcome,
    /// The strength the order ended with.
    pub strength: u8,
}

/// How a resolved order ended: dislodged if the unit was driven out,
/// otherwise cut if it is a cut support, otherwise by its success.
pub open spec fn outcome_of(o: OrderView) -> Outcome {
    if o.dislodged {
        Outcome::Dislodged
    } else if o.kind == OrderType::SupportCut {
        Outcome::SupportCut
    } else if o.succeeded {
        Outcome::Success
    } else {
        Outcome::Bounced
    }
}

/// The report of one resolved order.
pub open spec fn result_of(o: OrderView) -> OrderResult {
    OrderResult { location: o.location, outcome: outcome_of(o), strength: o.strength as u8 }
}

/// Whether every order of the set is resolved.
pub open spec fn all_resolved(s: Seq<OrderView>) -> bool {
    forall|i: int| 0 <= i < s.len() ==> (#[trigger] s[i]).resolved
}

/// Reports the outcome of every order, in the order of the set, once all
/// are resolved; nothing while one is not. The orders are only read, so
/// that a second report is the same as the first.
pub fn report(orders: &Vec<Order>) -> (results: Option<Vec<OrderResult>>)
    ensures
        results is Some <==> all_resolved(order_views(orders@)),
        results matches Some(r) ==> r@ == Seq::new(orders@.len(), |i: int| result_of(orders@[i]@)),
{
    let mut out: Vec<OrderResult> = Vec::new();
    let mut i: usize = 0;
    while i < orders.len()
        invariant
            i <= orders@.len(),
            out@.len() == i,
            forall|k: int| 0 <= k < i ==> (#[trigger] order_views(orders@)[k]).resolved,
            forall|k: int| 0 <= k < i ==> #[trigger] out@[k] == result_of(orders@[k]@),
        decreases orders@.len() - i,
    {
        let o = &orders[i];
        if !o.is_resolved() {
            assert(!order_views(orders@)[i as int].resolved);
            return None;
        }
        let outcome = if o.is_dislodged() {
            Outcome::Dislodged
        } else if o.order_type() == OrderType::SupportCut {
            Outcome::SupportCut
        } else if o.has_succeeded() {
            Outcome::Success
        } else {
            Outcome::Bounced
        };
        out.push(OrderResult { location: o.location(), outcome, strength: o.strength() });
        i += 1;
    }
    Some(out)
}

/// Whether every province has at most one order, as the orders of one turn
/// must.
pub fn locations_are_distinct(orders: &Vec<Order>) -> (distinct: bool)
    ensures
        distinct == distinct_locations(order_views(orders@)),
{
    let ghost s = order_views(orders@);
    let mut i: usize = 0;
    while i < orders.len()
        invariant
            i <= orders@.len(),
            s == order_views(orders@),
            forall|a: int, b: int| 0 <= a < i ==> !#[trigger] shares(s, a, b),
        decreases orders@.len() - i,
    {
        let mut j: usize = 0;
        while j < orders.len()
            invariant
                i < orders@.len(),
                j <= orders@.len(),
                s == order_views(orders@),
                forall|b: int| 0 <= b < j ==> !#[trigger] shares(s, i as int, b),
            decreases orders@.len() - j,
        {
            if i != j && orders[i].location() == orders[j].location() {
                assert(shares(s, i as int, j as int));
                return false;
            }
            j += 1;
        }
        i += 1;
    }
    true
}

/// Adjudicates one turn: builds the dependency graph of the orders, drains
/// it, breaks the cycles that are left, and so on until every order is
/// resolved.
///
/// The outcome is a function of the order set alone. The adjudication fails
/// where a support that is ready has two orders waiting for it, where an
/// order would outgrow its strength, and where orders are left that wait
/// for each other in none of the known shapes.
pub fn adjudicate(orders: Vec<Order>) -> (done: Result<Vec<Order>, AdjudicationError>)
    requires
        orders@.len() <= MAX_ORDERS,
    ensures
        match resolve(order_views(orders@)) {
            Ok(last) => done matches Ok(resolved) && order_views(resolved@) == last,
            Err(e) => done matches Err(x) && x == e,
        },
        done matches Ok(resolved) ==> all_resolved(order_views(resolved@)),
{
    let ghost given = order_views(orders@);
    let (mut graph, _nodes) = create_order_dependency_graph(&orders);
    prune(&mut graph, &orders);
    let mut current: Vec<Order> = orders;
    loop
        invariant
            given == order_views(orders@),
            tracks(graph, order_views(current@)),
            resolve(order_views(current@)) == resolve(given),
        decreases open_count(order_views(current@)),
    {
        let start: usize = count_open(&current);
        match resolve_all_non_dependant_edges(&mut graph, &mut current) {
            Err(e) => {
                return Err(e);
            },
            Ok(()) => {},
        }
        let left: usize = count_open(&current);
        if left == 0 {
            proof {
                lemma_none_open(order_views(current@));
            }
            return Ok(current);
        }
        match resolve_cycles(&mut graph, &mut current) {
            Err(e) => {
                return Err(e);
            },
            Ok(()) => {},
        }
        let after: usize = count_open(&current);
        if after >= start {
            return Err(AdjudicationError::UnrecognizedCycle);
        }
    }
}

/// Where no order is counted as unresolved, every order is resolved.
pub proof fn lemma_none_open(s: Seq<OrderView>)
    requires
        open_count(s) == 0,
    ensures
        all_resolved(s),
    decreases s.len(),
{
    if s.len() > 0 {
        lemma_none_open(s.drop_last());
        assert forall|i: int| 0 <= i < s.len() implies (#[trigger] s[i]).resolved by {
            if i < s.len() - 1 {
                assert(s.drop_last()[i] == s[i]);
            }
        }
    }
}

} // verus!
