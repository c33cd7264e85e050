//! The rules of resolution, as mathematics over an order set.
//!
//! An order set is a sequence of order values. One pass of the engine and
//! one step of the cycle resolver are each a function from the order set
//! before to the order set after, defined order by order from the set
//! before, so that neither depends on the sequence in which orders are
//! visited.

use vstd::prelude::*;
use crate::dependency::waits_for;
use crate::order::OrderType;
use crate::order::OrderView;
use crate::province::ProvinceID;

verus! {

/// Why the adjudication of a turn failed.
#[derive(Clone, Copy, PartialEq, Eq, Structural, Debug)]
pub enum AdjudicationError {
    /// A support that is ready to be given has more than one order waiting
    /// for it.
    InvariantViolation,
    /// An order would receive more supports than its strength can count.
    StrengthOverflow,
    /// What is left of the graph has none of the known shapes of a cycle.
    UnrecognizedCycle,
}

/// Whether every order of the set is well formed.
pub open spec fn all_wf(s: Seq<OrderView>) -> bool {
    forall|i: int| 0 <= i < s.len() ==> (#[trigger] s[i]).wf()
}

/// Whether the order set is as the players gave it: every order well
/// formed, unresolved, and of strength one.
pub open spec fn as_given(s: Seq<OrderView>) -> bool {
    forall|i: int| 0 <= i < s.len() ==> (#[trigger] s[i]).wf() && !s[i].resolved && s[i].strength == 1
}

/// Whether two different orders are given to the unit of one province.
pub open spec fn shares(s: Seq<OrderView>, i: int, j: int) -> bool {
    0 <= i < s.len() && 0 <= j < s.len() && i != j && s[i].location == s[j].location
}

/// Whether every province has at most one order.
pub open spec fn distinct_locations(s: Seq<OrderView>) -> bool {
    forall|i: int, j: int| !#[trigger] shares(s, i, j)
}

/// Whether order `i` is unresolved and waits for nothing.
pub open spec fn is_free(s: Seq<OrderView>, i: int) -> bool {
    &&& 0 <= i < s.len()
    &&& !s[i].resolved
    &&& forall|j: int| !#[trigger] waits_for(s, i, j)
}

/// Whether `x` waits for `y` only to be measured against it: `y` moves into
/// the province that `x` moves into or stands in, or `y` stands, without
/// moving or convoying `x`, in the province that `x` moves into.
pub open spec fn contest_edge(x: OrderView, y: OrderView) -> bool {
    if x.kind == OrderType::Move {
        &&& !y.convoys(x.source, x.target)
        &&& y.moves_into(x.target) || (y.location == x.target && y.kind != OrderType::Move)
    } else {
        y.moves_into(x.location)
    }
}

/// Whether order `i` is unresolved and waits only for orders it is measured
/// against: its strength is final.
pub open spec fn is_settled(s: Seq<OrderView>, i: int) -> bool {
    &&& 0 <= i < s.len()
    &&& !s[i].resolved
    &&& forall|j: int| #[trigger] waits_for(s, i, j) ==> contest_edge(s[i], s[j])
}

/// Whether unresolved order `p` takes part in the contest for province `b`:
/// it moves into `b`, or stands in `b` without moving.
pub open spec fn takes_part(s: Seq<OrderView>, p: int, b: ProvinceID) -> bool {
    &&& 0 <= p < s.len()
    &&& !s[p].resolved
    &&& s[p].moves_into(b) || (s[p].kind != OrderType::Move && s[p].location == b)
}

/// Whether the contest for province `b` can be decided: all who take part
/// are settled.
pub open spec fn contest_ready(s: Seq<OrderView>, b: ProvinceID) -> bool {
    forall|p: int| #[trigger] takes_part(s, p, b) ==> is_settled(s, p)
}

/// Whether order `c` is a convoy of move `i` that did not hold.
pub open spec fn failed_convoy(s: Seq<OrderView>, i: int, c: int) -> bool {
    &&& 0 <= c < s.len()
    &&& s[c].convoys(s[i].source, s[i].target)
    &&& !s[c].succeeded || s[c].dislodged
}

/// Whether a move left its province.
pub open spec fn vacated(o: OrderView) -> bool {
    o.kind == OrderType::Move && o.resolved && o.succeeded
}

/// Whether order `p` contests the destination of move `i` with at least the
/// strength of `i`: another move into it, or an order that stands in it and
/// did not move away.
pub open spec fn withstands(s: Seq<OrderView>, i: int, p: int) -> bool {
    &&& 0 <= p < s.len()
    &&& p != i
    &&& s[p].moves_into(s[i].target) || (s[p].location == s[i].target && !vacated(s[p]))
    &&& s[p].strength >= s[i].strength
}

/// Whether move `i` takes its destination: none of its convoys failed, and
/// it is strictly stronger than every other order that contests the
/// destination.
pub open spec fn wins(s: Seq<OrderView>, i: int) -> bool {
    &&& forall|c: int| !#[trigger] failed_convoy(s, i, c)
    &&& forall|p: int| !#[trigger] withstands(s, i, p)
}

/// Whether `p` is an unresolved move into `b` that takes it.
pub open spec fn conqueror(s: Seq<OrderView>, p: int, b: ProvinceID) -> bool {
    &&& 0 <= p < s.len()
    &&& !s[p].resolved
    &&& s[p].moves_into(b)
    &&& wins(s, p)
}

/// Whether province `b` is taken in this pass.
pub open spec fn conquered(s: Seq<OrderView>, b: ProvinceID) -> bool {
    contest_ready(s, b) && exists|p: int| #[trigger] conqueror(s, p, b)
}

/// Whether some order waits for order `j`.
pub open spec fn has_dependent(s: Seq<OrderView>, j: int) -> bool {
    exists|x: int| #[trigger] waits_for(s, x, j)
}

/// Whether two different orders wait for order `j`.
pub open spec fn is_torn(s: Seq<OrderView>, j: int) -> bool {
    exists|x: int, y: int| x != y && #[trigger] waits_for(s, x, j) && #[trigger] waits_for(s, y, j)
}

/// Whether order `j` is a support that this pass gives.
pub open spec fn ready_support(s: Seq<OrderView>, j: int) -> bool {
    is_free(s, j) && s[j].kind == OrderType::Support
}

/// Whether order `j` is a support that this pass gives to order `i`.
pub open spec fn gives(s: Seq<OrderView>, j: int, i: int) -> bool {
    ready_support(s, j) && waits_for(s, i, j)
}

/// The number of orders among the first `k` that give their support to
/// order `i` in this pass.
pub open spec fn gain_among(s: Seq<OrderView>, i: int, k: nat) -> nat
    decreases k,
{
    if k == 0 {
        0
    } else {
        gain_among(s, i, (k - 1) as nat) + if gives(s, k - 1, i) {
            1nat
        } else {
            0nat
        }
    }
}

/// The number of supports that order `i` receives in this pass.
pub open spec fn gain(s: Seq<OrderView>, i: int) -> nat {
    gain_among(s, i, s.len())
}

/// Whether order `j` is a support that this pass would give to two orders.
pub open spec fn torn_support(s: Seq<OrderView>, j: int) -> bool {
    ready_support(s, j) && is_torn(s, j)
}

/// Whether order `i` would grow beyond what its strength can count.
pub open spec fn overflows(s: Seq<OrderView>, i: int) -> bool {
    0 <= i < s.len() && s[i].strength + gain(s, i) > u8::MAX
}

/// The error that stops a pass, if any.
pub open spec fn pass_error(s: Seq<OrderView>) -> Option<AdjudicationError> {
    if exists|j: int| #[trigger] torn_support(s, j) {
        Some(AdjudicationError::InvariantViolation)
    } else if exists|i: int| #[trigger] overflows(s, i) {
        Some(AdjudicationError::StrengthOverflow)
    } else {
        None
    }
}

/// The order with the supports added that it receives in this pass.
pub open spec fn strengthened(s: Seq<OrderView>, i: int) -> OrderView {
    OrderView { strength: s[i].strength + gain(s, i), ..s[i] }
}

/// Order `i` after one pass over the order set `s`.
///
/// A resolved order changes only in that it is dislodged where its province
/// is taken and it did not move away. A move is resolved once the contest
/// for its destination can be decided, and succeeds where it wins it. An
/// order that stays is resolved once nothing is left that it waits for, or
/// once the contest for its province can be decided; it is dislodged where
/// the province is taken. A free support succeeds if an order waits for it
/// and is otherwise marked as not taken up; a support against which a move
/// came is cut. An illegal order never succeeds. Every other order receives
/// the supports that are given to it.
pub open spec fn pass_order(s: Seq<OrderView>, i: int) -> OrderView {
    let o = s[i];
    if o.resolved {
        if !vacated(o) && conquered(s, o.location) {
            OrderView { dislodged: true, ..o }
        } else {
            o
        }
    } else if o.kind == OrderType::Move {
        if contest_ready(s, o.target) {
            o.settle(o.kind, wins(s, i), false)
        } else {
            strengthened(s, i)
        }
    } else if is_free(s, i) {
        if o.kind == OrderType::Support {
            if has_dependent(s, i) {
                o.settle(o.kind, true, false)
            } else {
                o.settle(OrderType::RequiredOrderNotGiven, false, false)
            }
        } else {
            o.settle(o.kind, o.kind != OrderType::IllegalOrder, false)
        }
    } else if contest_ready(s, o.location) {
        let lost = conquered(s, o.location);
        if o.kind == OrderType::Support {
            o.settle(OrderType::SupportCut, false, lost)
        } else {
            o.settle(o.kind, !lost && o.kind != OrderType::IllegalOrder, lost)
        }
    } else {
        strengthened(s, i)
    }
}

/// The order set after one pass: every order as `pass_order` gives it.
pub open spec fn pass(s: Seq<OrderView>) -> Seq<OrderView> {
    Seq::new(s.len(), |i: int| pass_order(s, i))
}

/// The number of unresolved orders.
pub open spec fn open_count(s: Seq<OrderView>) -> nat
    decreases s.len(),
{
    if s.len() == 0 {
        0
    } else {
        open_count(s.drop_last()) + if s.last().resolved {
            0nat
        } else {
            1nat
        }
    }
}

/// The engine's fixpoint: passes are made as long as each resolves an order.
/// The result is the order set at which the passes stop, with the error
/// that stopped them, if one did.
pub open spec fn drain(s: Seq<OrderView>) -> (Seq<OrderView>, Option<AdjudicationError>)
    decreases open_count(s),
{
    if pass_error(s) is Some {
        (s, pass_error(s))
    } else if open_count(pass(s)) < open_count(s) {
        drain(pass(s))
    } else {
        (s, None)
    }
}

/// Whether `path` leads from order to order, each waiting for the next.
pub open spec fn waiting_chain(s: Seq<OrderView>, path: Seq<int>) -> bool {
    forall|k: int| 0 <= k < path.len() - 1 ==> waits_for(s, #[trigger] path[k], path[k + 1])
}

/// Whether order `a` waits, directly or through others, for order `b`.
pub open spec fn reaches(s: Seq<OrderView>, a: int, b: int) -> bool {
    exists|path: Seq<int>|
        path.len() >= 1 && path[0] == a && path.last() == b && #[trigger] waiting_chain(s, path)
}

/// Whether unresolved convoy `c` carries unresolved move `m` and waits,
/// directly or through others, for that move: the two lie on a cycle.
pub open spec fn paradox(s: Seq<OrderView>, m: int, c: int) -> bool {
    &&& 0 <= m < s.len()
    &&& 0 <= c < s.len()
    &&& !s[m].resolved
    &&& !s[c].resolved
    &&& s[m].kind == OrderType::Move
    &&& s[c].convoys(s[m].source, s[m].target)
    &&& reaches(s, c, m)
}

/// Whether order `i` is the move or the convoy of a convoy paradox.
pub open spec fn in_paradox(s: Seq<OrderView>, i: int) -> bool {
    (exists|c: int| #[trigger] paradox(s, i, c)) || (exists|m: int| #[trigger] paradox(s, m, i))
}

/// Whether order `c` is a convoy for move `i`, resolved or not.
pub open spec fn carries(s: Seq<OrderView>, i: int, c: int) -> bool {
    0 <= c < s.len() && s[c].convoys(s[i].source, s[i].target)
}

/// Whether no convoy is ordered for move `i`.
pub open spec fn unconvoyed(s: Seq<OrderView>, i: int) -> bool {
    forall|c: int| !#[trigger] carries(s, i, c)
}

/// Whether `i` and `j` are unresolved moves into each other's province,
/// neither with a convoy.
pub open spec fn swap(s: Seq<OrderView>, i: int, j: int) -> bool {
    &&& 0 <= i < s.len()
    &&& 0 <= j < s.len()
    &&& !s[i].resolved
    &&& !s[j].resolved
    &&& s[i].kind == OrderType::Move
    &&& s[j].kind == OrderType::Move
    &&& s[j].location == s[i].target
    &&& s[j].target == s[i].location
    &&& unconvoyed(s, i)
    &&& unconvoyed(s, j)
}

/// Whether order `i` is one of two moves that come head to head.
pub open spec fn head_to_head(s: Seq<OrderView>, i: int) -> bool {
    exists|j: int| #[trigger] swap(s, i, j)
}

/// Whether order `p` is another move into the destination of move `x`.
pub open spec fn rival(s: Seq<OrderView>, x: int, p: int) -> bool {
    0 <= p < s.len() && p != x && s[p].moves_into(s[x].target)
}

/// Whether `y` is the one order that move `x` waits for, and is itself a
/// move out of the destination of `x` to a province other than that of `x`.
pub open spec fn ring_next(s: Seq<OrderView>, x: int, y: int) -> bool {
    &&& waits_for(s, x, y)
    &&& s[y].kind == OrderType::Move
    &&& s[y].location == s[x].target
    &&& s[y].target != s[x].location
    &&& forall|z: int| #[trigger] waits_for(s, x, z) ==> z == y
}

/// Whether order `x` can be part of a circular movement: an unresolved move
/// without convoy, into a province that no other move enters, which waits
/// only for the move out of that province.
pub open spec fn rotating(s: Seq<OrderView>, x: int) -> bool {
    &&& 0 <= x < s.len()
    &&& !s[x].resolved
    &&& s[x].kind == OrderType::Move
    &&& unconvoyed(s, x)
    &&& forall|p: int| !#[trigger] rival(s, x, p)
    &&& exists|y: int| #[trigger] ring_next(s, x, y)
}

/// The order that a rotating move waits for.
pub open spec fn successor(s: Seq<OrderView>, x: int) -> int {
    choose|y: int| #[trigger] ring_next(s, x, y)
}

/// Whether the rotating moves that start at `at`, each followed by the one
/// it waits for, arrive at order `i` within `fuel` steps.
pub open spec fn closes(s: Seq<OrderView>, i: int, at: int, fuel: nat) -> bool
    decreases fuel,
{
    &&& fuel > 0
    &&& rotating(s, at)
    &&& successor(s, at) == i || closes(s, i, successor(s, at), (fuel - 1) as nat)
}

/// Whether order `i` is part of a circular movement.
pub open spec fn in_ring(s: Seq<OrderView>, i: int) -> bool {
    closes(s, i, i, s.len())
}

/// Whether the cycle resolver knows what to do with order `i`.
pub open spec fn classified(s: Seq<OrderView>, i: int) -> bool {
    &&& 0 <= i < s.len()
    &&& in_paradox(s, i) || head_to_head(s, i) || in_ring(s, i)
}

/// Order `i` after one step of the cycle resolver on the order set `s`.
///
/// The move and the convoy of a convoy paradox fail. Moves that come head
/// to head fail. The moves of a circular movement succeed. Nothing is
/// dislodged, and every other order is left as it is.
pub open spec fn break_order(s: Seq<OrderView>, i: int) -> OrderView {
    let o = s[i];
    if in_paradox(s, i) {
        o.settle(o.kind, false, false)
    } else if head_to_head(s, i) {
        o.settle(o.kind, false, false)
    } else if in_ring(s, i) {
        o.settle(o.kind, true, false)
    } else {
        o
    }
}

/// One step of the cycle resolver: every order as `break_order` gives it,
/// or an error where no order has a known place in a cycle.
pub open spec fn break_cycles(s: Seq<OrderView>) -> Result<Seq<OrderView>, AdjudicationError> {
    if exists|i: int| #[trigger] classified(s, i) {
        Ok(Seq::new(s.len(), |i: int| break_order(s, i)))
    } else {
        Err(AdjudicationError::UnrecognizedCycle)
    }
}

/// The whole resolution: the engine drains the graph; if orders are left,
/// the cycle resolver breaks what it recognizes, and the engine goes on from
/// there, until no order is left unresolved.
pub open spec fn resolve(s: Seq<OrderView>) -> Result<Seq<OrderView>, AdjudicationError>
    decreases open_count(s),
{
    let (d, stopped) = drain(s);
    if stopped is Some {
        Err(stopped->0)
    } else if open_count(d) == 0 {
        Ok(d)
    } else {
        match break_cycles(d) {
            Err(e) => Err(e),
            Ok(c) => if open_count(c) < open_count(s) {
                resolve(c)
            } else {
                Err(AdjudicationError::UnrecognizedCycle)
            },
        }
    }
}

/// Whether the order set `t` holds the orders of `s` at a later time: what
/// an order is never changes, and what resolution fixed stays fixed, but
/// that a resolved order may still be dislodged.
pub open spec fn later(s: Seq<OrderView>, t: Seq<OrderView>) -> bool {
    &&& t.len() == s.len()
    &&& forall|i: int|
        0 <= i < s.len() ==> {
            &&& (#[trigger] t[i]).original == s[i].original
            &&& t[i].location == s[i].location
            &&& t[i].source == s[i].source
            &&& t[i].target == s[i].target
            &&& (t[i].kind == OrderType::Move) == (s[i].kind == OrderType::Move)
            &&& (t[i].kind == OrderType::Convoy) == (s[i].kind == OrderType::Convoy)
            &&& (t[i].kind == OrderType::IllegalOrder) == (s[i].kind == OrderType::IllegalOrder)
            &&& !t[i].resolved ==> !s[i].resolved && t[i].kind == s[i].kind
            &&& s[i].resolved ==> {
                &&& t[i].resolved
                &&& t[i].kind == s[i].kind
                &&& t[i].succeeded == s[i].succeeded
                &&& t[i].strength == s[i].strength
                &&& s[i].dislodged ==> t[i].dislodged
            }
        }
}

/// A pass takes an order set to a later one.
pub proof fn lemma_pass_later(s: Seq<OrderView>)
    ensures
        later(s, pass(s)),
{
}

/// A step of the cycle resolver takes an order set to a later one.
pub proof fn lemma_break_later(s: Seq<OrderView>)
    requires
        break_cycles(s) is Ok,
    ensures
        later(s, break_cycles(s)->Ok_0),
{
}

/// What came later than something later came later.
pub proof fn lemma_later_chain(s: Seq<OrderView>, t: Seq<OrderView>, u: Seq<OrderView>)
    requires
        later(s, t),
        later(t, u),
    ensures
        later(s, u),
{
    assert forall|i: int| 0 <= i < s.len() implies (#[trigger] u[i]).original == s[i].original by {
        assert(t[i].original == s[i].original);
    }
    assert forall|i: int| 0 <= i < s.len() implies {
        &&& (#[trigger] u[i]).original == s[i].original
        &&& u[i].location == s[i].location
        &&& u[i].source == s[i].source
        &&& u[i].target == s[i].target
        &&& (u[i].kind == OrderType::Move) == (s[i].kind == OrderType::Move)
        &&& (u[i].kind == OrderType::Convoy) == (s[i].kind == OrderType::Convoy)
        &&& (u[i].kind == OrderType::IllegalOrder) == (s[i].kind == OrderType::IllegalOrder)
        &&& !u[i].resolved ==> !s[i].resolved && u[i].kind == s[i].kind
        &&& s[i].resolved ==> {
            &&& u[i].resolved
            &&& u[i].kind == s[i].kind
            &&& u[i].succeeded == s[i].succeeded
            &&& u[i].strength == s[i].strength
            &&& s[i].dislodged ==> u[i].dislodged
        }
    } by {
        assert(t[i].original == s[i].original);
    }
}

} // verus!
