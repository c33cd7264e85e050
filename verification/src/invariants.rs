//! What every pass of the engine and every step of the cycle resolver keep
//! true of an order set.

use vstd::prelude::*;
use crate::dependency::waits_for;
use crate::engine::lemma_open_count_step;
use crate::order::OrderType;
use crate::order::OrderView;
use crate::rules::all_wf;
use crate::rules::break_cycles;
use crate::rules::carries;
use crate::rules::closes;
use crate::rules::conqueror;
use crate::rules::contest_ready;
use crate::rules::distinct_locations;
use crate::rules::gain;
use crate::rules::gain_among;
use crate::rules::gives;
use crate::rules::head_to_head;
use crate::rules::in_paradox;
use crate::rules::in_ring;
use crate::rules::later;
use crate::rules::lemma_break_later;
use crate::rules::lemma_pass_later;
use crate::rules::open_count;
use crate::rules::overflows;
use crate::rules::paradox;
use crate::rules::pass;
use crate::rules::pass_error;
use crate::rules::pass_order;
use crate::rules::ready_support;
use crate::rules::ring_next;
use crate::rules::rival;
use crate::rules::rotating;
use crate::rules::shares;
use crate::rules::successor;
use crate::rules::swap;
use crate::rules::takes_part;
use crate::rules::torn_support;
use crate::rules::unconvoyed;
use crate::rules::vacated;
use crate::rules::waiting_chain;
use crate::rules::wins;
use crate::rules::withstands;

verus! {

/// A pass that no error stops keeps every order well formed.
pub proof fn lemma_pass_wf(s: Seq<OrderView>)
    requires
        all_wf(s),
        pass_error(s) is None,
    ensures
        all_wf(pass(s)),
{
    let t = pass(s);
    assert forall|i: int| 0 <= i < t.len() implies (#[trigger] t[i]).wf() by {
        assert(!overflows(s, i));
    }
}

/// A step of the cycle resolver keeps every order well formed.
pub proof fn lemma_break_wf(s: Seq<OrderView>)
    requires
        all_wf(s),
        break_cycles(s) is Ok,
    ensures
        all_wf(break_cycles(s)->Ok_0),
{
}

/// Whether `i` and `j` are moves into each other's province, neither with a
/// convoy, resolved or not.
pub open spec fn opposed(s: Seq<OrderView>, i: int, j: int) -> bool {
    &&& 0 <= i < s.len()
    &&& 0 <= j < s.len()
    &&& s[i].kind == OrderType::Move
    &&& s[j].kind == OrderType::Move
    &&& s[j].location == s[i].target
    &&& s[j].target == s[i].location
    &&& unconvoyed(s, i)
    &&& unconvoyed(s, j)
}

/// Whether moves that come head to head are resolved together, and fail.
pub open spec fn swaps_bounce(s: Seq<OrderView>) -> bool {
    forall|i: int, j: int| #[trigger]
        opposed(s, i, j) ==> s[i].resolved == s[j].resolved && (s[i].resolved ==> !s[i].succeeded
            && !s[j].succeeded)
}

/// Whether no move that left its province is dislodged.
pub open spec fn leavers_escape(s: Seq<OrderView>) -> bool {
    forall|i: int| 0 <= i < s.len() && vacated(#[trigger] s[i]) ==> !s[i].dislodged
}

/// Which convoys are ordered for a move does not change with time.
pub proof fn lemma_unconvoyed_later(s: Seq<OrderView>, t: Seq<OrderView>, i: int)
    requires
        later(s, t),
        0 <= i < s.len(),
    ensures
        unconvoyed(s, i) == unconvoyed(t, i),
{
    if unconvoyed(s, i) {
        assert forall|c: int| !#[trigger] carries(t, i, c) by {
            if carries(t, i, c) {
                assert(carries(s, i, c));
            }
        }
    }
    if unconvoyed(t, i) {
        assert forall|c: int| !#[trigger] carries(s, i, c) by {
            if carries(s, i, c) {
                assert(carries(t, i, c));
            }
        }
    }
}

/// Which moves come head to head does not change with time.
pub proof fn lemma_opposed_later(s: Seq<OrderView>, t: Seq<OrderView>, i: int, j: int)
    requires
        later(s, t),
    ensures
        opposed(s, i, j) == opposed(t, i, j),
{
    if 0 <= i < s.len() && 0 <= j < s.len() {
        lemma_unconvoyed_later(s, t, i);
        lemma_unconvoyed_later(s, t, j);
    }
}

/// A pass keeps moves that come head to head together.
pub proof fn lemma_pass_swaps(s: Seq<OrderView>)
    requires
        all_wf(s),
        swaps_bounce(s),
    ensures
        swaps_bounce(pass(s)),
{
    let t = pass(s);
    lemma_pass_later(s);
    assert forall|i: int, j: int| #[trigger] opposed(t, i, j) implies t[i].resolved == t[j].resolved && (
    t[i].resolved ==> !t[i].succeeded && !t[j].succeeded) by {
        lemma_opposed_later(s, t, i, j);
        if !s[i].resolved {
            lemma_pass_skips_blocked(s, i, j);
            lemma_pass_skips_blocked(s, j, i);
        }
    }
}

/// A step of the cycle resolver fails both of two unresolved moves that
/// come head to head.
pub proof fn lemma_break_swaps(s: Seq<OrderView>)
    requires
        all_wf(s),
        swaps_bounce(s),
        break_cycles(s) is Ok,
    ensures
        swaps_bounce(break_cycles(s)->Ok_0),
{
    let t = break_cycles(s)->Ok_0;
    lemma_break_later(s);
    assert forall|i: int, j: int| #[trigger] opposed(t, i, j) implies t[i].resolved == t[j].resolved && (
    t[i].resolved ==> !t[i].succeeded && !t[j].succeeded) by {
        lemma_opposed_later(s, t, i, j);
        if !s[i].resolved {
            assert(swap(s, i, j));
            assert(swap(s, j, i));
        }
    }
}

/// A pass keeps every move that left its province from being dislodged.
pub proof fn lemma_pass_leavers(s: Seq<OrderView>)
    requires
        leavers_escape(s),
    ensures
        leavers_escape(pass(s)),
{
}

/// A step of the cycle resolver keeps every move that left its province
/// from being dislodged.
pub proof fn lemma_break_leavers(s: Seq<OrderView>)
    requires
        leavers_escape(s),
        break_cycles(s) is Ok,
    ensures
        leavers_escape(break_cycles(s)->Ok_0),
{
}

/// Whether order `i` is a move that took its destination.
pub open spec fn took(s: Seq<OrderView>, i: int) -> bool {
    0 <= i < s.len() && vacated(s[i])
}

/// Whether order `k` stands in the destination of order `i`.
pub open spec fn in_the_way(s: Seq<OrderView>, i: int, k: int) -> bool {
    0 <= k < s.len() && s[k].location == s[i].target
}

/// Whether every other move into a province that was taken failed.
pub open spec fn taken_once(s: Seq<OrderView>) -> bool {
    forall|i: int, p: int|
        #[trigger] took(s, i) && #[trigger] rival(s, i, p) ==> s[p].resolved && !s[p].succeeded
}

/// Whether, where no province has two orders, whatever stood in a province
/// that was taken is dislodged or moved away.
pub open spec fn taken_clear(s: Seq<OrderView>) -> bool {
    distinct_locations(s) ==> forall|i: int, k: int|
        #[trigger] took(s, i) && #[trigger] in_the_way(s, i, k) ==> s[k].resolved && (s[k].dislodged
            || vacated(s[k]))
}

/// Whether every dislodged unit stood in a province that a move took.
pub open spec fn dislodged_by_taking(s: Seq<OrderView>) -> bool {
    forall|k: int|
        0 <= k < s.len() && (#[trigger] s[k]).dislodged ==> exists|i: int| #[trigger]
            took(s, i) && s[i].target == s[k].location
}

/// Which provinces have two orders does not change with time.
pub proof fn lemma_distinct_later(s: Seq<OrderView>, t: Seq<OrderView>)
    requires
        later(s, t),
    ensures
        distinct_locations(s) == distinct_locations(t),
{
    if distinct_locations(s) {
        assert forall|i: int, j: int| !#[trigger] shares(t, i, j) by {
            if shares(t, i, j) {
                assert(shares(s, i, j));
            }
        }
    }
    if distinct_locations(t) {
        assert forall|i: int, j: int| !#[trigger] shares(s, i, j) by {
            if shares(s, i, j) {
                assert(shares(t, i, j));
            }
        }
    }
}

/// A chain of rotating moves that arrives at order `i` arrives, one step
/// later, at the order that `i` waits for.
pub proof fn lemma_ring_extends(s: Seq<OrderView>, i: int, at: int, fuel: nat)
    requires
        closes(s, i, at, fuel),
        rotating(s, i),
    ensures
        closes(s, successor(s, i), at, fuel + 1),
    decreases fuel,
{
    if successor(s, at) != i {
        lemma_ring_extends(s, i, successor(s, at), (fuel - 1) as nat);
    } else {
        assert(closes(s, successor(s, i), i, fuel));
    }
}

/// What a rotating move waits for is the order that its ring names next.
pub proof fn lemma_successor(s: Seq<OrderView>, x: int)
    requires
        rotating(s, x),
    ensures
        ring_next(s, x, successor(s, x)),
{
}

/// The move that a move of a ring waits for is part of the ring.
pub proof fn lemma_ring_next_in_ring(s: Seq<OrderView>, i: int)
    requires
        in_ring(s, i),
    ensures
        in_ring(s, successor(s, i)),
        rotating(s, i),
        ring_next(s, i, successor(s, i)),
{
    lemma_successor(s, i);
    let y = successor(s, i);
    lemma_ring_extends(s, i, y, (s.len() - 1) as nat);
}

/// A move of a ring is part of no convoy paradox and comes head to head
/// with no other move.
pub proof fn lemma_ring_only(s: Seq<OrderView>, i: int)
    requires
        all_wf(s),
        in_ring(s, i),
    ensures
        !in_paradox(s, i),
        !head_to_head(s, i),
{
    lemma_successor(s, i);
    assert(!in_paradox(s, i)) by {
        if exists|c: int| #[trigger] paradox(s, i, c) {
            let c = choose|c: int| #[trigger] paradox(s, i, c);
            assert(carries(s, i, c));
        }
    }
    assert(!head_to_head(s, i)) by {
        if head_to_head(s, i) {
            let j = choose|j: int| #[trigger] swap(s, i, j);
            assert(waits_for(s, i, j));
        }
    }
}

/// An unresolved move that a pass lets succeed won the contest for its
/// destination, which could be decided.
pub proof fn lemma_pass_winner(s: Seq<OrderView>, i: int)
    requires
        0 <= i < s.len(),
        !s[i].resolved,
        vacated(pass(s)[i]),
    ensures
        s[i].kind == OrderType::Move,
        contest_ready(s, s[i].target),
        wins(s, i),
        conqueror(s, i, s[i].target),
{
}

/// A pass keeps every other move into a taken province failed.
pub proof fn lemma_pass_taken_once(s: Seq<OrderView>)
    requires
        all_wf(s),
        taken_once(s),
    ensures
        taken_once(pass(s)),
{
    let t = pass(s);
    lemma_pass_later(s);
    assert forall|i: int, p: int| #[trigger] took(t, i) && #[trigger] rival(t, i, p) implies t[p].resolved
        && !t[p].succeeded by {
        assert(rival(s, i, p));
        if s[i].resolved {
            assert(took(s, i));
        } else {
            lemma_pass_winner(s, i);
            if s[p].resolved {
                if s[p].succeeded {
                    assert(took(s, p));
                    assert(rival(s, p, i));
                }
            } else {
                assert(!withstands(s, i, p));
                assert(withstands(s, p, i));
            }
        }
    }
}

/// A step of the cycle resolver keeps every other move into a taken
/// province failed.
pub proof fn lemma_break_taken_once(s: Seq<OrderView>)
    requires
        all_wf(s),
        taken_once(s),
        break_cycles(s) is Ok,
    ensures
        taken_once(break_cycles(s)->Ok_0),
{
    let t = break_cycles(s)->Ok_0;
    lemma_break_later(s);
    assert forall|i: int, p: int| #[trigger] took(t, i) && #[trigger] rival(t, i, p) implies t[p].resolved
        && !t[p].succeeded by {
        assert(rival(s, i, p));
        if s[i].resolved {
            assert(took(s, i));
        }
    }
}

/// A pass dislodges, or has seen leave, whatever stood in a province that
/// is taken.
pub proof fn lemma_pass_taken_clear(s: Seq<OrderView>)
    requires
        all_wf(s),
        taken_clear(s),
    ensures
        taken_clear(pass(s)),
{
    let t = pass(s);
    lemma_pass_later(s);
    lemma_distinct_later(s, t);
    if distinct_locations(t) {
        assert forall|i: int, k: int| #[trigger] took(t, i) && #[trigger] in_the_way(t, i, k) implies t[k].resolved
            && (t[k].dislodged || vacated(t[k])) by {
            assert(in_the_way(s, i, k));
            if s[i].resolved {
                assert(took(s, i));
            } else {
                lemma_pass_winner(s, i);
                let b = s[i].target;
                if !s[k].resolved {
                    assert(waits_for(s, i, k));
                    assert(takes_part(s, i, b));
                    assert(waits_for(s, k, i));
                }
            }
        }
    }
}

/// A step of the cycle resolver lets succeed, together with a move of a
/// ring, the move that stood in its destination.
pub proof fn lemma_break_taken_clear(s: Seq<OrderView>)
    requires
        all_wf(s),
        taken_clear(s),
        break_cycles(s) is Ok,
    ensures
        taken_clear(break_cycles(s)->Ok_0),
{
    let t = break_cycles(s)->Ok_0;
    lemma_break_later(s);
    lemma_distinct_later(s, t);
    if distinct_locations(t) {
        assert forall|i: int, k: int| #[trigger] took(t, i) && #[trigger] in_the_way(t, i, k) implies t[k].resolved
            && (t[k].dislodged || vacated(t[k])) by {
            assert(in_the_way(s, i, k));
            if s[i].resolved {
                assert(took(s, i));
            } else {
                lemma_ring_next_in_ring(s, i);
                let y = successor(s, i);
                if k != y {
                    assert(shares(s, k, y));
                }
                lemma_ring_only(s, y);
            }
        }
    }
}

/// A pass dislodges only from provinces that it lets a move take.
pub proof fn lemma_pass_dislodged(s: Seq<OrderView>)
    requires
        dislodged_by_taking(s),
    ensures
        dislodged_by_taking(pass(s)),
{
    let t = pass(s);
    lemma_pass_later(s);
    assert forall|k: int| 0 <= k < t.len() && (#[trigger] t[k]).dislodged implies exists|i: int| #[trigger]
        took(t, i) && t[i].target == t[k].location by {
        if s[k].dislodged {
            let i = choose|i: int| #[trigger] took(s, i) && s[i].target == s[k].location;
            assert(took(t, i) && t[i].target == t[k].location);
        } else {
            let p = choose|p: int| #[trigger] conqueror(s, p, s[k].location);
            assert(took(t, p) && t[p].target == t[k].location);
        }
    }
}

/// A step of the cycle resolver dislodges nothing.
pub proof fn lemma_break_dislodged(s: Seq<OrderView>)
    requires
        all_wf(s),
        dislodged_by_taking(s),
        break_cycles(s) is Ok,
    ensures
        dislodged_by_taking(break_cycles(s)->Ok_0),
{
    let t = break_cycles(s)->Ok_0;
    lemma_break_later(s);
    assert forall|k: int| 0 <= k < t.len() && (#[trigger] t[k]).dislodged implies exists|i: int| #[trigger]
        took(t, i) && t[i].target == t[k].location by {
        let i = choose|i: int| #[trigger] took(s, i) && s[i].target == s[k].location;
        assert(took(t, i) && t[i].target == t[k].location);
    }
}

/// A pass resolves no move while an unresolved move stands in its
/// destination.
pub proof fn lemma_pass_skips_blocked(s: Seq<OrderView>, i: int, j: int)
    requires
        0 <= i < s.len(),
        0 <= j < s.len(),
        s[i].wf(),
        s[j].wf(),
        s[i].kind == OrderType::Move,
        s[j].kind == OrderType::Move,
        s[j].location == s[i].target,
        !s[i].resolved,
        !s[j].resolved,
    ensures
        !pass_order(s, i).resolved,
{
    assert(waits_for(s, i, j));
    assert(takes_part(s, i, s[i].target));
}

/// Whether `i` is a move without convoy into the province of move `j`,
/// which no other move enters.
pub open spec fn follows(s: Seq<OrderView>, i: int, j: int) -> bool {
    &&& 0 <= i < s.len()
    &&& 0 <= j < s.len()
    &&& s[i].kind == OrderType::Move
    &&& s[j].kind == OrderType::Move
    &&& s[j].location == s[i].target
    &&& unconvoyed(s, i)
    &&& forall|p: int| !#[trigger] rival(s, i, p)
}

/// Whether `i`, `j` and `k` are three moves in a circle, each into the
/// province of the next, none with a convoy or with a rival for its
/// destination.
pub open spec fn triangle(s: Seq<OrderView>, i: int, j: int, k: int) -> bool {
    follows(s, i, j) && follows(s, j, k) && follows(s, k, i)
}

/// Whether, where no province has two orders, a move of a triangle is
/// resolved only as a success, and only after or together with the next.
pub open spec fn triangles_turn(s: Seq<OrderView>) -> bool {
    distinct_locations(s) ==> forall|i: int, j: int, k: int| #[trigger]
        triangle(s, i, j, k) && s[i].resolved ==> s[i].succeeded && s[j].resolved
}

/// Which moves follow each other does not change with time.
pub proof fn lemma_follows_later(s: Seq<OrderView>, t: Seq<OrderView>, i: int, j: int)
    requires
        later(s, t),
    ensures
        follows(s, i, j) == follows(t, i, j),
{
    if 0 <= i < s.len() && 0 <= j < s.len() {
        lemma_unconvoyed_later(s, t, i);
        if forall|p: int| !#[trigger] rival(s, i, p) {
            assert forall|p: int| !#[trigger] rival(t, i, p) by {
                if rival(t, i, p) {
                    assert(rival(s, i, p));
                }
            }
        }
        if forall|p: int| !#[trigger] rival(t, i, p) {
            assert forall|p: int| !#[trigger] rival(s, i, p) by {
                if rival(s, i, p) {
                    assert(rival(t, i, p));
                }
            }
        }
    }
}

/// Which moves form a triangle does not change with time.
pub proof fn lemma_triangle_later(s: Seq<OrderView>, t: Seq<OrderView>, i: int, j: int, k: int)
    requires
        later(s, t),
    ensures
        triangle(s, i, j, k) == triangle(t, i, j, k),
{
    lemma_follows_later(s, t, i, j);
    lemma_follows_later(s, t, j, k);
    lemma_follows_later(s, t, k, i);
}

/// A pass resolves no move of a triangle of unresolved moves.
pub proof fn lemma_pass_triangles(s: Seq<OrderView>)
    requires
        all_wf(s),
        triangles_turn(s),
    ensures
        triangles_turn(pass(s)),
{
    let t = pass(s);
    lemma_pass_later(s);
    lemma_distinct_later(s, t);
    if distinct_locations(t) {
        assert forall|i: int, j: int, k: int| #[trigger] triangle(t, i, j, k) && t[i].resolved implies t[i].succeeded
            && t[j].resolved by {
            lemma_triangle_later(s, t, i, j, k);
            assert(triangle(s, j, k, i));
            assert(triangle(s, k, i, j));
            if !s[i].resolved {
                lemma_pass_skips_blocked(s, i, j);
            }
        }
    }
}

/// A step of the cycle resolver that resolves a move of a triangle lets it
/// succeed, and the next move with it.
pub proof fn lemma_break_triangles(s: Seq<OrderView>)
    requires
        all_wf(s),
        triangles_turn(s),
        break_cycles(s) is Ok,
    ensures
        triangles_turn(break_cycles(s)->Ok_0),
{
    let t = break_cycles(s)->Ok_0;
    lemma_break_later(s);
    lemma_distinct_later(s, t);
    if distinct_locations(t) {
        assert forall|i: int, j: int, k: int| #[trigger] triangle(t, i, j, k) && t[i].resolved implies t[i].succeeded
            && t[j].resolved by {
            lemma_triangle_later(s, t, i, j, k);
            if !s[i].resolved && t[i].resolved {
                assert(!in_paradox(s, i)) by {
                    if exists|c: int| #[trigger] paradox(s, i, c) {
                        let c = choose|c: int| #[trigger] paradox(s, i, c);
                        assert(carries(s, i, c));
                    }
                }
                assert(!head_to_head(s, i)) by {
                    if head_to_head(s, i) {
                        let h = choose|h: int| #[trigger] swap(s, i, h);
                        if h != j {
                            assert(shares(s, h, j));
                        }
                    }
                }
                lemma_ring_next_in_ring(s, i);
                let y = successor(s, i);
                if y != j {
                    assert(shares(s, y, j));
                }
                lemma_ring_only(s, j);
            }
        }
    }
}

/// Whether `y` was given as a support of what `x` does: of its move from
/// where it stands to its destination, or of its stay, which an illegal
/// order cannot have supported.
pub open spec fn backs(y: OrderView, x: OrderView) -> bool {
    &&& y.original == OrderType::Support
    &&& y.source == x.location
    &&& if x.kind == OrderType::Move {
        y.target == x.target
    } else {
        x.kind != OrderType::IllegalOrder && y.target == x.location
    }
}

/// Whether order `j` is a support of order `i` that was given.
pub open spec fn gave(s: Seq<OrderView>, j: int, i: int) -> bool {
    &&& 0 <= j < s.len()
    &&& j != i
    &&& s[j].resolved
    &&& s[j].succeeded
    &&& backs(s[j], s[i])
}

/// The number of orders among the first `k` that are supports of order `i`
/// and were given.
pub open spec fn backing_among(s: Seq<OrderView>, i: int, k: nat) -> nat
    decreases k,
{
    if k == 0 {
        0
    } else {
        backing_among(s, i, (k - 1) as nat) + if gave(s, k - 1, i) {
            1nat
        } else {
            0nat
        }
    }
}

/// The number of supports of order `i` that were given.
pub open spec fn backing(s: Seq<OrderView>, i: int) -> nat {
    backing_among(s, i, s.len())
}

/// Whether, where no province has two orders, the strength of every order
/// is one more than the number of its supports that were given.
pub open spec fn strengths_counted(s: Seq<OrderView>) -> bool {
    distinct_locations(s) ==> forall|i: int|
        0 <= i < s.len() ==> (#[trigger] s[i]).strength == 1 + backing(s, i)
}

/// The supports given after a pass are those given before it and those the
/// pass gives.
pub proof fn lemma_backing_grows(s: Seq<OrderView>, t: Seq<OrderView>, i: int, k: nat)
    requires
        k <= s.len(),
        t.len() == s.len(),
        forall|j: int| 0 <= j < k ==> (#[trigger] gave(t, j, i) <==> gave(s, j, i) || gives(s, j, i)),
        forall|j: int| 0 <= j < k ==> !(#[trigger] gave(s, j, i) && gives(s, j, i)),
    ensures
        backing_among(t, i, k) == backing_among(s, i, k) + gain_among(s, i, k),
    decreases k,
{
    if k > 0 {
        lemma_backing_grows(s, t, i, (k - 1) as nat);
    }
}

/// Where no support is given to an order, it gains nothing.
pub proof fn lemma_no_gain(s: Seq<OrderView>, i: int, k: nat)
    requires
        forall|j: int| 0 <= j < k ==> !#[trigger] gives(s, j, i),
    ensures
        gain_among(s, i, k) == 0,
    decreases k,
{
    if k > 0 {
        lemma_no_gain(s, i, (k - 1) as nat);
    }
}

/// Where the same supports were given, as many were given.
pub proof fn lemma_backing_same(s: Seq<OrderView>, t: Seq<OrderView>, i: int, k: nat)
    requires
        k <= s.len(),
        t.len() == s.len(),
        forall|j: int| 0 <= j < k ==> (#[trigger] gave(t, j, i) <==> gave(s, j, i)),
    ensures
        backing_among(t, i, k) == backing_among(s, i, k),
    decreases k,
{
    if k > 0 {
        lemma_backing_same(s, t, i, (k - 1) as nat);
    }
}

/// Where nothing is resolved, no support was given.
pub proof fn lemma_no_backing(s: Seq<OrderView>, i: int, k: nat)
    requires
        k <= s.len(),
        forall|j: int| 0 <= j < s.len() ==> !(#[trigger] s[j]).resolved,
    ensures
        backing_among(s, i, k) == 0,
    decreases k,
{
    if k > 0 {
        lemma_no_backing(s, i, (k - 1) as nat);
    }
}

/// An order that waits for a support which itself waits for nothing is the
/// order that the support was given for.
pub proof fn lemma_waiting_is_backed(s: Seq<OrderView>, x: int, j: int)
    requires
        all_wf(s),
        ready_support(s, j),
        waits_for(s, x, j),
    ensures
        backs(s[j], s[x]),
{
    if s[x].kind == OrderType::Move && s[j].location == s[x].target {
        assert(waits_for(s, j, x));
    }
}

/// A pass changes which supports of order `i` were given only by those it
/// gives to `i`.
pub proof fn lemma_pass_gave(s: Seq<OrderView>, i: int, j: int)
    requires
        all_wf(s),
        distinct_locations(s),
        pass_error(s) is None,
        0 <= i < s.len(),
        0 <= j < s.len(),
    ensures
        gave(pass(s), j, i) <==> gave(s, j, i) || gives(s, j, i),
        !(gave(s, j, i) && gives(s, j, i)),
{
    let t = pass(s);
    lemma_pass_later(s);
    if gives(s, j, i) {
        lemma_waiting_is_backed(s, i, j);
    }
    if gave(t, j, i) && !gave(s, j, i) {
        let x = choose|x: int| #[trigger] waits_for(s, x, j);
        lemma_waiting_is_backed(s, x, j);
        if x != i {
            assert(shares(s, x, i));
        }
    }
}

/// An order that a pass resolves gains nothing in that pass.
pub proof fn lemma_resolved_gains_nothing(s: Seq<OrderView>, i: int)
    requires
        all_wf(s),
        0 <= i < s.len(),
        !s[i].resolved,
        pass_order(s, i).resolved,
    ensures
        gain(s, i) == 0,
{
    assert forall|j: int| 0 <= j < s.len() implies !#[trigger] gives(s, j, i) by {
        if gives(s, j, i) {
            if s[i].kind == OrderType::Move {
                assert(takes_part(s, i, s[i].target));
            } else {
                assert(takes_part(s, i, s[i].location));
            }
            assert(waits_for(s, j, i));
        }
    }
    lemma_no_gain(s, i, s.len());
}

/// A pass keeps every strength one more than the number of supports given.
pub proof fn lemma_pass_strengths(s: Seq<OrderView>)
    requires
        all_wf(s),
        strengths_counted(s),
        pass_error(s) is None,
    ensures
        strengths_counted(pass(s)),
{
    let t = pass(s);
    lemma_pass_later(s);
    lemma_distinct_later(s, t);
    if distinct_locations(t) {
        assert forall|i: int| 0 <= i < t.len() implies (#[trigger] t[i]).strength == 1 + backing(t, i) by {
            assert forall|j: int| 0 <= j < s.len() implies (#[trigger] gave(t, j, i) <==> gave(s, j, i)
                || gives(s, j, i)) && !(gave(s, j, i) && gives(s, j, i)) by {
                lemma_pass_gave(s, i, j);
            }
            lemma_backing_grows(s, t, i, s.len());
            if s[i].resolved {
                assert forall|j: int| 0 <= j < s.len() implies !#[trigger] gives(s, j, i) by {}
                lemma_no_gain(s, i, s.len());
            } else if t[i].resolved {
                lemma_resolved_gains_nothing(s, i);
            }
        }
    }
}

/// A step of the cycle resolver gives no support and changes no strength.
pub proof fn lemma_break_strengths(s: Seq<OrderView>)
    requires
        all_wf(s),
        strengths_counted(s),
        break_cycles(s) is Ok,
    ensures
        strengths_counted(break_cycles(s)->Ok_0),
{
    let t = break_cycles(s)->Ok_0;
    lemma_break_later(s);
    lemma_distinct_later(s, t);
    if distinct_locations(t) {
        assert forall|i: int| 0 <= i < t.len() implies (#[trigger] t[i]).strength == 1 + backing(t, i) by {
            assert forall|j: int| 0 <= j < s.len() implies (#[trigger] gave(t, j, i) <==> gave(s, j, i)) by {
                if !s[j].resolved && t[j].resolved {
                    crate::cycles::lemma_classified_is_open(s, j);
                }
            }
            lemma_backing_same(s, t, i, s.len());
        }
    }
}

/// A pass that does not resolve an order does not resolve an order that
/// waits for it.
pub proof fn lemma_stuck_behind(s: Seq<OrderView>, x: int, y: int)
    requires
        all_wf(s),
        waits_for(s, x, y),
        !pass_order(s, y).resolved,
    ensures
        !pass_order(s, x).resolved,
{
    if pass_order(s, x).resolved {
        let b = if s[x].kind == OrderType::Move {
            s[x].target
        } else {
            s[x].location
        };
        assert(takes_part(s, x, b));
    }
}

/// A pass resolves no order of a chain that ends in an order which the pass
/// does not resolve.
pub proof fn lemma_chain_stays(s: Seq<OrderView>, chain: Seq<int>, k: int)
    requires
        all_wf(s),
        waiting_chain(s, chain),
        0 <= k < chain.len(),
        !pass_order(s, chain.last()).resolved,
    ensures
        !pass_order(s, chain[k]).resolved,
    decreases chain.len() - k,
{
    if k < chain.len() - 1 {
        lemma_chain_stays(s, chain, k + 1);
        lemma_stuck_behind(s, chain[k], chain[k + 1]);
    }
}

/// A pass leaves a convoy paradox as it is.
pub proof fn lemma_pass_keeps_paradox(s: Seq<OrderView>, m: int, c: int)
    requires
        all_wf(s),
        paradox(s, m, c),
    ensures
        paradox(pass(s), m, c),
{
    let t = pass(s);
    lemma_pass_later(s);
    let chain = choose|chain: Seq<int>|
        chain.len() >= 1 && chain[0] == c && chain.last() == m && #[trigger] waiting_chain(s, chain);
    assert(!pass_order(s, m).resolved) by {
        assert(waits_for(s, m, c));
        assert(takes_part(s, m, s[m].target));
    }
    assert forall|k: int| 0 <= k < chain.len() - 1 implies waits_for(t, #[trigger] chain[k], chain[k + 1]) by {
        lemma_chain_stays(s, chain, k);
        lemma_chain_stays(s, chain, k + 1);
    }
    assert(waiting_chain(t, chain));
    lemma_chain_stays(s, chain, 0);
}

/// Whether the move and the convoy of every convoy paradox of the order set
/// `given` are, in the order set `s`, still in that paradox, or both
/// resolved as failed.
pub open spec fn paradoxes_fail(given: Seq<OrderView>, s: Seq<OrderView>) -> bool {
    forall|m: int, c: int| #[trigger]
        paradox(given, m, c) ==> paradox(s, m, c) || (s[m].resolved && !s[m].succeeded && s[c].resolved
            && !s[c].succeeded)
}

/// A pass leaves every convoy paradox to the cycle resolver.
pub proof fn lemma_pass_paradoxes(given: Seq<OrderView>, s: Seq<OrderView>)
    requires
        all_wf(s),
        given.len() == s.len(),
        paradoxes_fail(given, s),
    ensures
        paradoxes_fail(given, pass(s)),
{
    let t = pass(s);
    lemma_pass_later(s);
    assert forall|m: int, c: int| #[trigger] paradox(given, m, c) implies paradox(t, m, c) || (t[m].resolved
        && !t[m].succeeded && t[c].resolved && !t[c].succeeded) by {
        if paradox(s, m, c) {
            lemma_pass_keeps_paradox(s, m, c);
        }
    }
}

/// A step of the cycle resolver fails the move and the convoy of every
/// convoy paradox.
pub proof fn lemma_break_paradoxes(given: Seq<OrderView>, s: Seq<OrderView>)
    requires
        given.len() == s.len(),
        paradoxes_fail(given, s),
        break_cycles(s) is Ok,
    ensures
        paradoxes_fail(given, break_cycles(s)->Ok_0),
{
    lemma_break_later(s);
}

/// Where no province has two orders, no support that is ready has two
/// orders waiting for it.
pub proof fn lemma_no_torn_support(s: Seq<OrderView>, j: int)
    requires
        all_wf(s),
        distinct_locations(s),
    ensures
        !torn_support(s, j),
{
    if torn_support(s, j) {
        let (x, y) = choose|x: int, y: int| x != y && #[trigger] waits_for(s, x, j) && #[trigger] waits_for(s, y, j);
        lemma_waiting_is_backed(s, x, j);
        lemma_waiting_is_backed(s, y, j);
        assert(shares(s, x, y));
    }
}

/// Among the first `k` orders, no more are unresolved later than were
/// before, and fewer where one of them was resolved meanwhile.
pub proof fn lemma_fewer_open(s: Seq<OrderView>, t: Seq<OrderView>, k: int)
    requires
        later(s, t),
        0 <= k <= s.len(),
    ensures
        open_count(t.take(k)) <= open_count(s.take(k)),
        (exists|i: int| 0 <= i < k && !s[i].resolved && (#[trigger] t[i]).resolved) ==> open_count(t.take(k))
            < open_count(s.take(k)),
    decreases k,
{
    if k > 0 {
        lemma_fewer_open(s, t, k - 1);
        lemma_open_count_step(s, k - 1);
        lemma_open_count_step(t, k - 1);
        if exists|i: int| 0 <= i < k && !s[i].resolved && (#[trigger] t[i]).resolved {
            let i = choose|i: int| 0 <= i < k && !s[i].resolved && (#[trigger] t[i]).resolved;
        }
    }
}

} // verus!
