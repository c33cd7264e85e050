//! The place of an order in the order set is immaterial: listing the orders
//! in another sequence lists their outcomes in that sequence, and changes
//! nothing else.

use vstd::prelude::*;
use crate::dependency::waits_for;
use crate::order::OrderView;
use crate::province::ProvinceID;
use crate::rules::AdjudicationError;
use crate::rules::break_cycles;
use crate::rules::break_order;
use crate::rules::carries;
use crate::rules::classified;
use crate::rules::closes;
use crate::rules::conquered;
use crate::rules::conqueror;
use crate::rules::contest_edge;
use crate::rules::contest_ready;
use crate::rules::drain;
use crate::rules::failed_convoy;
use crate::rules::gain;
use crate::rules::gain_among;
use crate::rules::gives;
use crate::rules::has_dependent;
use crate::rules::head_to_head;
use crate::rules::in_paradox;
use crate::rules::in_ring;
use crate::rules::is_free;
use crate::rules::is_settled;
use crate::rules::is_torn;
use crate::rules::open_count;
use crate::rules::overflows;
use crate::rules::paradox;
use crate::rules::pass;
use crate::rules::pass_error;
use crate::rules::pass_order;
use crate::rules::reaches;
use crate::rules::resolve;
use crate::rules::ring_next;
use crate::rules::rival;
use crate::rules::rotating;
use crate::rules::successor;
use crate::rules::swap;
use crate::rules::takes_part;
use crate::rules::torn_support;
use crate::rules::unconvoyed;
use crate::rules::waiting_chain;
use crate::rules::wins;
use crate::rules::withstands;

verus! {

/// Whether `f` renumbers `n` positions, with `g` as its inverse: each maps
/// every position to a position, and each undoes the other.
pub open spec fn is_renumbering(f: Seq<int>, g: Seq<int>, n: nat) -> bool {
    &&& f.len() == n
    &&& g.len() == n
    &&& forall|i: int| 0 <= i < n ==> 0 <= #[trigger] f[i] < n && g[f[i]] == i
    &&& forall|j: int| 0 <= j < n ==> 0 <= #[trigger] g[j] < n && f[g[j]] == j
}

/// The order set `s` listed anew: position `i` holds the order that `s`
/// holds at position `f[i]`.
pub open spec fn renumbered(s: Seq<OrderView>, f: Seq<int>) -> Seq<OrderView> {
    Seq::new(s.len(), |i: int| s[f[i]])
}

/// Whether `t` is `s` listed anew by the renumbering `f`, with inverse `g`.
pub open spec fn mirrors(s: Seq<OrderView>, t: Seq<OrderView>, f: Seq<int>, g: Seq<int>) -> bool {
    &&& is_renumbering(f, g, s.len())
    &&& t.len() == s.len()
    &&& forall|i: int| 0 <= i < s.len() ==> #[trigger] t[i] == s[f[i]]
}

/// An order waits for another wherever they are listed.
pub proof fn lemma_waits(s: Seq<OrderView>, t: Seq<OrderView>, f: Seq<int>, g: Seq<int>, x: int, y: int)
    requires
        mirrors(s, t, f, g),
        0 <= x < s.len(),
        0 <= y < s.len(),
    ensures
        waits_for(t, x, y) == waits_for(s, f[x], f[y]),
{
}

/// An order is free wherever it is listed.
pub proof fn lemma_free(s: Seq<OrderView>, t: Seq<OrderView>, f: Seq<int>, g: Seq<int>, i: int)
    requires
        mirrors(s, t, f, g),
        0 <= i < s.len(),
    ensures
        is_free(t, i) == is_free(s, f[i]),
{
    if is_free(s, f[i]) {
        assert forall|j: int| !#[trigger] waits_for(t, i, j) by {
            if waits_for(t, i, j) {
                lemma_waits(s, t, f, g, i, j);
            }
        }
    }
    if is_free(t, i) {
        assert forall|j: int| !#[trigger] waits_for(s, f[i], j) by {
            if waits_for(s, f[i], j) {
                lemma_waits(s, t, f, g, i, g[j]);
            }
        }
    }
}

/// An order is settled wherever it is listed.
pub proof fn lemma_settled(s: Seq<OrderView>, t: Seq<OrderView>, f: Seq<int>, g: Seq<int>, i: int)
    requires
        mirrors(s, t, f, g),
        0 <= i < s.len(),
    ensures
        is_settled(t, i) == is_settled(s, f[i]),
{
    if is_settled(s, f[i]) {
        assert forall|j: int| #[trigger] waits_for(t, i, j) implies contest_edge(t[i], t[j]) by {
            lemma_waits(s, t, f, g, i, j);
        }
    }
    if is_settled(t, i) {
        assert forall|j: int| #[trigger] waits_for(s, f[i], j) implies contest_edge(s[f[i]], s[j]) by {
            lemma_waits(s, t, f, g, i, g[j]);
        }
    }
}

/// A contest can be decided however its orders are listed.
pub proof fn lemma_contest_ready(s: Seq<OrderView>, t: Seq<OrderView>, f: Seq<int>, g: Seq<int>, b: ProvinceID)
    requires
        mirrors(s, t, f, g),
    ensures
        contest_ready(t, b) == contest_ready(s, b),
{
    if contest_ready(s, b) {
        assert forall|p: int| #[trigger] takes_part(t, p, b) implies is_settled(t, p) by {
            assert(takes_part(s, f[p], b));
            lemma_settled(s, t, f, g, p);
        }
    }
    if contest_ready(t, b) {
        assert forall|p: int| #[trigger] takes_part(s, p, b) implies is_settled(s, p) by {
            assert(takes_part(t, g[p], b));
            lemma_settled(s, t, f, g, g[p]);
        }
    }
}

/// A move wins wherever it is listed.
pub proof fn lemma_wins(s: Seq<OrderView>, t: Seq<OrderView>, f: Seq<int>, g: Seq<int>, i: int)
    requires
        mirrors(s, t, f, g),
        0 <= i < s.len(),
    ensures
        wins(t, i) == wins(s, f[i]),
{
    if wins(s, f[i]) {
        assert forall|c: int| !#[trigger] failed_convoy(t, i, c) by {
            if failed_convoy(t, i, c) {
                assert(failed_convoy(s, f[i], f[c]));
            }
        }
        assert forall|p: int| !#[trigger] withstands(t, i, p) by {
            if withstands(t, i, p) {
                assert(withstands(s, f[i], f[p]));
            }
        }
    }
    if wins(t, i) {
        assert forall|c: int| !#[trigger] failed_convoy(s, f[i], c) by {
            if failed_convoy(s, f[i], c) {
                assert(failed_convoy(t, i, g[c]));
            }
        }
        assert forall|p: int| !#[trigger] withstands(s, f[i], p) by {
            if withstands(s, f[i], p) {
                assert(withstands(t, i, g[p]));
            }
        }
    }
}

/// A province is taken however the orders are listed.
pub proof fn lemma_conquered(s: Seq<OrderView>, t: Seq<OrderView>, f: Seq<int>, g: Seq<int>, b: ProvinceID)
    requires
        mirrors(s, t, f, g),
    ensures
        conquered(t, b) == conquered(s, b),
{
    lemma_contest_ready(s, t, f, g, b);
    if conquered(s, b) {
        let p = choose|p: int| #[trigger] conqueror(s, p, b);
        lemma_wins(s, t, f, g, g[p]);
        assert(conqueror(t, g[p], b));
    }
    if conquered(t, b) {
        let p = choose|p: int| #[trigger] conqueror(t, p, b);
        lemma_wins(s, t, f, g, p);
        assert(conqueror(s, f[p], b));
    }
}

/// An order has a dependent wherever it is listed.
pub proof fn lemma_has_dependent(s: Seq<OrderView>, t: Seq<OrderView>, f: Seq<int>, g: Seq<int>, j: int)
    requires
        mirrors(s, t, f, g),
        0 <= j < s.len(),
    ensures
        has_dependent(t, j) == has_dependent(s, f[j]),
{
    if has_dependent(s, f[j]) {
        let x = choose|x: int| #[trigger] waits_for(s, x, f[j]);
        lemma_waits(s, t, f, g, g[x], j);
    }
    if has_dependent(t, j) {
        let x = choose|x: int| #[trigger] waits_for(t, x, j);
        lemma_waits(s, t, f, g, x, j);
    }
}

/// An order is torn wherever it is listed.
pub proof fn lemma_torn(s: Seq<OrderView>, t: Seq<OrderView>, f: Seq<int>, g: Seq<int>, j: int)
    requires
        mirrors(s, t, f, g),
        0 <= j < s.len(),
    ensures
        is_torn(t, j) == is_torn(s, f[j]),
{
    if is_torn(s, f[j]) {
        let (x, y) = choose|x: int, y: int|
            x != y && #[trigger] waits_for(s, x, f[j]) && #[trigger] waits_for(s, y, f[j]);
        lemma_waits(s, t, f, g, g[x], j);
        lemma_waits(s, t, f, g, g[y], j);
    }
    if is_torn(t, j) {
        let (x, y) = choose|x: int, y: int| x != y && #[trigger] waits_for(t, x, j) && #[trigger] waits_for(t, y, j);
        lemma_waits(s, t, f, g, x, j);
        lemma_waits(s, t, f, g, y, j);
    }
}

/// A support is given wherever giver and receiver are listed.
pub proof fn lemma_gives(s: Seq<OrderView>, t: Seq<OrderView>, f: Seq<int>, g: Seq<int>, j: int, i: int)
    requires
        mirrors(s, t, f, g),
        0 <= j < s.len(),
        0 <= i < s.len(),
    ensures
        gives(t, j, i) == gives(s, f[j], f[i]),
{
    lemma_free(s, t, f, g, j);
    lemma_waits(s, t, f, g, i, j);
}

/// The number of positions at which `b` holds.
pub open spec fn tally(b: Seq<bool>) -> nat
    decreases b.len(),
{
    if b.len() == 0 {
        0
    } else {
        tally(b.drop_last()) + if b.last() {
            1nat
        } else {
            0nat
        }
    }
}

/// Taking one position out takes one off the tally where that position
/// held.
pub proof fn lemma_tally_remove(b: Seq<bool>, k: int)
    requires
        0 <= k < b.len(),
    ensures
        tally(b) == tally(b.remove(k)) + if b[k] {
            1nat
        } else {
            0nat
        },
    decreases b.len(),
{
    if k != b.len() - 1 {
        lemma_tally_remove(b.drop_last(), k);
        assert(b.remove(k).drop_last() =~= b.drop_last().remove(k));
    }
}

/// Renumbering the positions leaves the tally as it is.
pub proof fn lemma_tally_renumbered(b1: Seq<bool>, b2: Seq<bool>, f: Seq<int>, g: Seq<int>)
    requires
        is_renumbering(f, g, b1.len()),
        b2.len() == b1.len(),
        forall|j: int| 0 <= j < b1.len() ==> #[trigger] b2[j] == b1[f[j]],
    ensures
        tally(b2) == tally(b1),
    decreases b1.len(),
{
    let n = b1.len() as int;
    if n > 0 {
        let k = f[n - 1];
        let rest1 = b1.remove(k);
        let rest2 = b2.drop_last();
        let f1 = Seq::new(
            (n - 1) as nat,
            |j: int|
                if f[j] < k {
                    f[j]
                } else {
                    f[j] - 1
                },
        );
        let g1 = Seq::new(
            (n - 1) as nat,
            |j: int|
                if j < k {
                    g[j]
                } else {
                    g[j + 1]
                },
        );
        lemma_tally_renumbered(rest1, rest2, f1, g1);
        lemma_tally_remove(b1, k);
    }
}

/// Which of the first `k` orders give their support to order `i`.
pub open spec fn givers(s: Seq<OrderView>, i: int, k: nat) -> Seq<bool> {
    Seq::new(k, |j: int| gives(s, j, i))
}

/// The supports that an order gains are tallied givers.
pub proof fn lemma_gain_is_tally(s: Seq<OrderView>, i: int, k: nat)
    ensures
        gain_among(s, i, k) == tally(givers(s, i, k)),
    decreases k,
{
    if k > 0 {
        lemma_gain_is_tally(s, i, (k - 1) as nat);
        assert(givers(s, i, k).drop_last() =~= givers(s, i, (k - 1) as nat));
    }
}

/// An order gains as many supports wherever the orders are listed.
pub proof fn lemma_gain(s: Seq<OrderView>, t: Seq<OrderView>, f: Seq<int>, g: Seq<int>, i: int)
    requires
        mirrors(s, t, f, g),
        0 <= i < s.len(),
    ensures
        gain(t, i) == gain(s, f[i]),
{
    let b1 = givers(s, f[i], s.len());
    let b2 = givers(t, i, t.len());
    assert forall|j: int| 0 <= j < b1.len() implies #[trigger] b2[j] == b1[f[j]] by {
        lemma_gives(s, t, f, g, j, i);
    }
    lemma_tally_renumbered(b1, b2, f, g);
    lemma_gain_is_tally(s, f[i], s.len());
    lemma_gain_is_tally(t, i, t.len());
}

/// Which orders are unresolved.
pub open spec fn open_flags(s: Seq<OrderView>) -> Seq<bool> {
    Seq::new(s.len(), |j: int| !s[j].resolved)
}

/// The unresolved orders are tallied flags.
pub proof fn lemma_open_is_tally(s: Seq<OrderView>)
    ensures
        open_count(s) == tally(open_flags(s)),
    decreases s.len(),
{
    if s.len() > 0 {
        lemma_open_is_tally(s.drop_last());
        assert(open_flags(s).drop_last() =~= open_flags(s.drop_last()));
    }
}

/// As many orders are unresolved however they are listed.
pub proof fn lemma_open_count(s: Seq<OrderView>, t: Seq<OrderView>, f: Seq<int>, g: Seq<int>)
    requires
        mirrors(s, t, f, g),
    ensures
        open_count(t) == open_count(s),
{
    let b1 = open_flags(s);
    let b2 = open_flags(t);
    lemma_tally_renumbered(b1, b2, f, g);
    lemma_open_is_tally(s);
    lemma_open_is_tally(t);
}

/// A pass stops with the same error however the orders are listed.
pub proof fn lemma_pass_error(s: Seq<OrderView>, t: Seq<OrderView>, f: Seq<int>, g: Seq<int>)
    requires
        mirrors(s, t, f, g),
    ensures
        pass_error(t) == pass_error(s),
{
    if exists|j: int| #[trigger] torn_support(s, j) {
        let j = choose|j: int| #[trigger] torn_support(s, j);
        lemma_free(s, t, f, g, g[j]);
        lemma_torn(s, t, f, g, g[j]);
        assert(torn_support(t, g[j]));
    }
    if exists|j: int| #[trigger] torn_support(t, j) {
        let j = choose|j: int| #[trigger] torn_support(t, j);
        lemma_free(s, t, f, g, j);
        lemma_torn(s, t, f, g, j);
        assert(torn_support(s, f[j]));
    }
    if exists|i: int| #[trigger] overflows(s, i) {
        let i = choose|i: int| #[trigger] overflows(s, i);
        lemma_gain(s, t, f, g, g[i]);
        assert(overflows(t, g[i]));
    }
    if exists|i: int| #[trigger] overflows(t, i) {
        let i = choose|i: int| #[trigger] overflows(t, i);
        lemma_gain(s, t, f, g, i);
        assert(overflows(s, f[i]));
    }
}

/// A pass leaves an order the same wherever it is listed.
pub proof fn lemma_pass_order(s: Seq<OrderView>, t: Seq<OrderView>, f: Seq<int>, g: Seq<int>, i: int)
    requires
        mirrors(s, t, f, g),
        0 <= i < s.len(),
    ensures
        pass_order(t, i) == pass_order(s, f[i]),
{
    let o = t[i];
    lemma_conquered(s, t, f, g, o.location);
    lemma_contest_ready(s, t, f, g, o.location);
    lemma_contest_ready(s, t, f, g, o.target);
    lemma_wins(s, t, f, g, i);
    lemma_free(s, t, f, g, i);
    lemma_has_dependent(s, t, f, g, i);
    lemma_gain(s, t, f, g, i);
}

/// A pass over the orders listed anew gives what it gives otherwise, listed
/// anew.
pub proof fn lemma_pass(s: Seq<OrderView>, t: Seq<OrderView>, f: Seq<int>, g: Seq<int>)
    requires
        mirrors(s, t, f, g),
    ensures
        mirrors(pass(s), pass(t), f, g),
{
    assert forall|i: int| 0 <= i < s.len() implies #[trigger] pass(t)[i] == pass(s)[f[i]] by {
        lemma_pass_order(s, t, f, g, i);
    }
}

/// The engine's fixpoint of the orders listed anew is what it is otherwise,
/// listed anew, and stops with the same error.
pub proof fn lemma_drain(s: Seq<OrderView>, t: Seq<OrderView>, f: Seq<int>, g: Seq<int>)
    requires
        mirrors(s, t, f, g),
    ensures
        mirrors(drain(s).0, drain(t).0, f, g),
        drain(t).1 == drain(s).1,
    decreases open_count(s),
{
    lemma_pass_error(s, t, f, g);
    lemma_pass(s, t, f, g);
    lemma_open_count(s, t, f, g);
    lemma_open_count(pass(s), pass(t), f, g);
    if pass_error(s) is None && open_count(pass(s)) < open_count(s) {
        lemma_drain(pass(s), pass(t), f, g);
    }
}

/// A chain of waiting orders, renumbered, is a chain of waiting orders.
pub proof fn lemma_chain(s: Seq<OrderView>, t: Seq<OrderView>, f: Seq<int>, g: Seq<int>, chain: Seq<int>)
    requires
        mirrors(s, t, f, g),
        chain.len() >= 1,
        0 <= chain.last() < s.len(),
        waiting_chain(t, chain),
    ensures
        waiting_chain(s, Seq::new(chain.len(), |k: int| f[chain[k]])),
{
}

/// The same, back from the renumbered orders.
pub proof fn lemma_chain_back(s: Seq<OrderView>, t: Seq<OrderView>, f: Seq<int>, g: Seq<int>, chain: Seq<int>)
    requires
        mirrors(s, t, f, g),
        chain.len() >= 1,
        0 <= chain.last() < s.len(),
        waiting_chain(s, chain),
    ensures
        waiting_chain(t, Seq::new(chain.len(), |k: int| g[chain[k]])),
{
}

/// An order waits for another, directly or through others, wherever they
/// are listed.
pub proof fn lemma_reaches(s: Seq<OrderView>, t: Seq<OrderView>, f: Seq<int>, g: Seq<int>, a: int, b: int)
    requires
        mirrors(s, t, f, g),
        0 <= a < s.len(),
        0 <= b < s.len(),
    ensures
        reaches(t, a, b) == reaches(s, f[a], f[b]),
{
    if reaches(t, a, b) {
        let chain = choose|chain: Seq<int>|
            chain.len() >= 1 && chain[0] == a && chain.last() == b && #[trigger] waiting_chain(t, chain);
        lemma_chain(s, t, f, g, chain);
        let image = Seq::new(chain.len(), |k: int| f[chain[k]]);
    }
    if reaches(s, f[a], f[b]) {
        let chain = choose|chain: Seq<int>|
            chain.len() >= 1 && chain[0] == f[a] && chain.last() == f[b] && #[trigger] waiting_chain(s, chain);
        lemma_chain_back(s, t, f, g, chain);
        let image = Seq::new(chain.len(), |k: int| g[chain[k]]);
    }
}

/// A move and a convoy are in a convoy paradox wherever they are listed.
pub proof fn lemma_paradox(s: Seq<OrderView>, t: Seq<OrderView>, f: Seq<int>, g: Seq<int>, m: int, c: int)
    requires
        mirrors(s, t, f, g),
        0 <= m < s.len(),
        0 <= c < s.len(),
    ensures
        paradox(t, m, c) == paradox(s, f[m], f[c]),
{
    lemma_reaches(s, t, f, g, c, m);
}

/// An order is part of a convoy paradox wherever it is listed.
pub proof fn lemma_in_paradox(s: Seq<OrderView>, t: Seq<OrderView>, f: Seq<int>, g: Seq<int>, i: int)
    requires
        mirrors(s, t, f, g),
        0 <= i < s.len(),
    ensures
        in_paradox(t, i) == in_paradox(s, f[i]),
{
    if exists|c: int| #[trigger] paradox(t, i, c) {
        let c = choose|c: int| #[trigger] paradox(t, i, c);
        lemma_paradox(s, t, f, g, i, c);
    }
    if exists|m: int| #[trigger] paradox(t, m, i) {
        let m = choose|m: int| #[trigger] paradox(t, m, i);
        lemma_paradox(s, t, f, g, m, i);
    }
    if exists|c: int| #[trigger] paradox(s, f[i], c) {
        let c = choose|c: int| #[trigger] paradox(s, f[i], c);
        lemma_paradox(s, t, f, g, i, g[c]);
    }
    if exists|m: int| #[trigger] paradox(s, m, f[i]) {
        let m = choose|m: int| #[trigger] paradox(s, m, f[i]);
        lemma_paradox(s, t, f, g, g[m], i);
    }
}

/// A move is without convoy wherever it is listed.
pub proof fn lemma_unconvoyed(s: Seq<OrderView>, t: Seq<OrderView>, f: Seq<int>, g: Seq<int>, i: int)
    requires
        mirrors(s, t, f, g),
        0 <= i < s.len(),
    ensures
        unconvoyed(t, i) == unconvoyed(s, f[i]),
{
    if unconvoyed(s, f[i]) {
        assert forall|c: int| !#[trigger] carries(t, i, c) by {
            if carries(t, i, c) {
                assert(carries(s, f[i], f[c]));
            }
        }
    }
    if unconvoyed(t, i) {
        assert forall|c: int| !#[trigger] carries(s, f[i], c) by {
            if carries(s, f[i], c) {
                assert(carries(t, i, g[c]));
            }
        }
    }
}

/// Two moves come head to head wherever they are listed.
pub proof fn lemma_swap(s: Seq<OrderView>, t: Seq<OrderView>, f: Seq<int>, g: Seq<int>, i: int, j: int)
    requires
        mirrors(s, t, f, g),
        0 <= i < s.len(),
        0 <= j < s.len(),
    ensures
        swap(t, i, j) == swap(s, f[i], f[j]),
{
    lemma_unconvoyed(s, t, f, g, i);
    lemma_unconvoyed(s, t, f, g, j);
}

/// A move comes head to head with another wherever it is listed.
pub proof fn lemma_head_to_head(s: Seq<OrderView>, t: Seq<OrderView>, f: Seq<int>, g: Seq<int>, i: int)
    requires
        mirrors(s, t, f, g),
        0 <= i < s.len(),
    ensures
        head_to_head(t, i) == head_to_head(s, f[i]),
{
    if head_to_head(t, i) {
        let j = choose|j: int| #[trigger] swap(t, i, j);
        lemma_swap(s, t, f, g, i, j);
    }
    if head_to_head(s, f[i]) {
        let j = choose|j: int| #[trigger] swap(s, f[i], j);
        lemma_swap(s, t, f, g, i, g[j]);
    }
}

/// A move is the next of a ring after another wherever they are listed.
pub proof fn lemma_ring_next(s: Seq<OrderView>, t: Seq<OrderView>, f: Seq<int>, g: Seq<int>, x: int, y: int)
    requires
        mirrors(s, t, f, g),
        0 <= x < s.len(),
        0 <= y < s.len(),
    ensures
        ring_next(t, x, y) == ring_next(s, f[x], f[y]),
{
    lemma_waits(s, t, f, g, x, y);
    if ring_next(s, f[x], f[y]) {
        assert forall|z: int| #[trigger] waits_for(t, x, z) implies z == y by {
            lemma_waits(s, t, f, g, x, z);
        }
    }
    if ring_next(t, x, y) {
        assert forall|z: int| #[trigger] waits_for(s, f[x], z) implies z == f[y] by {
            lemma_waits(s, t, f, g, x, g[z]);
        }
    }
}

/// A move is rotating wherever it is listed, and waits for the same move.
pub proof fn lemma_rotating(s: Seq<OrderView>, t: Seq<OrderView>, f: Seq<int>, g: Seq<int>, x: int)
    requires
        mirrors(s, t, f, g),
        0 <= x < s.len(),
    ensures
        rotating(t, x) == rotating(s, f[x]),
        rotating(t, x) ==> 0 <= successor(t, x) < s.len() && f[successor(t, x)] == successor(s, f[x]),
{
    lemma_unconvoyed(s, t, f, g, x);
    if rotating(t, x) {
        let y = successor(t, x);
        lemma_ring_next(s, t, f, g, x, y);
        assert forall|p: int| !#[trigger] rival(s, f[x], p) by {
            if rival(s, f[x], p) {
                assert(rival(t, x, g[p]));
            }
        }
        let w = successor(s, f[x]);
    }
    if rotating(s, f[x]) {
        let w = successor(s, f[x]);
        lemma_ring_next(s, t, f, g, x, g[w]);
        assert forall|p: int| !#[trigger] rival(t, x, p) by {
            if rival(t, x, p) {
                assert(rival(s, f[x], f[p]));
            }
        }
    }
}

/// A chain of rotating moves closes wherever the moves are listed.
pub proof fn lemma_closes(s: Seq<OrderView>, t: Seq<OrderView>, f: Seq<int>, g: Seq<int>, i: int, at: int, fuel: nat)
    requires
        mirrors(s, t, f, g),
        0 <= i < s.len(),
        0 <= at < s.len(),
    ensures
        closes(t, i, at, fuel) == closes(s, f[i], f[at], fuel),
    decreases fuel,
{
    lemma_rotating(s, t, f, g, at);
    if fuel > 0 && rotating(t, at) {
        let y = successor(t, at);
        lemma_closes(s, t, f, g, i, y, (fuel - 1) as nat);
    }
}

/// An order has a known place in a cycle wherever it is listed.
pub proof fn lemma_classified(s: Seq<OrderView>, t: Seq<OrderView>, f: Seq<int>, g: Seq<int>, i: int)
    requires
        mirrors(s, t, f, g),
        0 <= i < s.len(),
    ensures
        in_paradox(t, i) == in_paradox(s, f[i]),
        head_to_head(t, i) == head_to_head(s, f[i]),
        in_ring(t, i) == in_ring(s, f[i]),
        classified(t, i) == classified(s, f[i]),
        break_order(t, i) == break_order(s, f[i]),
{
    lemma_in_paradox(s, t, f, g, i);
    lemma_head_to_head(s, t, f, g, i);
    lemma_closes(s, t, f, g, i, i, s.len());
}

/// A step of the cycle resolver on the orders listed anew gives what it
/// gives otherwise, listed anew, or fails as it fails otherwise.
pub proof fn lemma_break(s: Seq<OrderView>, t: Seq<OrderView>, f: Seq<int>, g: Seq<int>)
    requires
        mirrors(s, t, f, g),
    ensures
        break_cycles(t) is Ok == break_cycles(s) is Ok,
        break_cycles(s) is Ok ==> mirrors(break_cycles(s)->Ok_0, break_cycles(t)->Ok_0, f, g),
        break_cycles(s) is Err ==> break_cycles(t) == break_cycles(s),
{
    if exists|i: int| #[trigger] classified(s, i) {
        let i = choose|i: int| #[trigger] classified(s, i);
        lemma_classified(s, t, f, g, g[i]);
    }
    if exists|i: int| #[trigger] classified(t, i) {
        let i = choose|i: int| #[trigger] classified(t, i);
        lemma_classified(s, t, f, g, i);
    }
    if break_cycles(s) is Ok {
        let bs = break_cycles(s)->Ok_0;
        let bt = break_cycles(t)->Ok_0;
        assert forall|i: int| 0 <= i < s.len() implies #[trigger] bt[i] == bs[f[i]] by {
            lemma_classified(s, t, f, g, i);
        }
    }
}

/// Whether two resolutions end alike: with the same error, or with order
/// sets of which the second lists the orders of the first anew.
pub open spec fn alike(
    a: Result<Seq<OrderView>, AdjudicationError>,
    b: Result<Seq<OrderView>, AdjudicationError>,
    f: Seq<int>,
    g: Seq<int>,
) -> bool {
    match a {
        Ok(last) => b is Ok && mirrors(last, b->Ok_0, f, g),
        Err(e) => b == Err::<Seq<OrderView>, AdjudicationError>(e),
    }
}

/// The resolution of the orders listed anew is what it is otherwise, listed
/// anew.
pub proof fn lemma_resolve(s: Seq<OrderView>, t: Seq<OrderView>, f: Seq<int>, g: Seq<int>)
    requires
        mirrors(s, t, f, g),
    ensures
        alike(resolve(s), resolve(t), f, g),
    decreases open_count(s),
{
    lemma_drain(s, t, f, g);
    lemma_open_count(s, t, f, g);
    let ds = drain(s).0;
    let dt = drain(t).0;
    lemma_open_count(ds, dt, f, g);
    if drain(s).1 is None && open_count(ds) != 0 {
        lemma_break(ds, dt, f, g);
        if break_cycles(ds) is Ok {
            let cs = break_cycles(ds)->Ok_0;
            let ct = break_cycles(dt)->Ok_0;
            lemma_open_count(cs, ct, f, g);
            if open_count(cs) < open_count(s) {
                lemma_resolve(cs, ct, f, g);
            }
        }
    }
}

/// The outcome of a turn does not depend on the sequence in which its
/// orders are listed: listed anew, the orders resolve to the same final
/// orders, listed anew, or fail with the same error.
pub proof fn law_listing_is_immaterial(orders: Seq<OrderView>, f: Seq<int>, g: Seq<int>)
    requires
        is_renumbering(f, g, orders.len()),
    ensures
        match resolve(orders) {
            Ok(last) => resolve(renumbered(orders, f)) == Ok::<Seq<OrderView>, AdjudicationError>(
                renumbered(last, f),
            ),
            Err(e) => resolve(renumbered(orders, f)) == Err::<Seq<OrderView>, AdjudicationError>(e),
        },
{
    let t = renumbered(orders, f);
    lemma_resolve(orders, t, f, g);
    if resolve(orders) is Ok {
        let last = resolve(orders)->Ok_0;
        assert(resolve(t)->Ok_0 =~= renumbered(last, f));
    }
}

} // verus!
