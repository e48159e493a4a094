//! The graph of a material pair, reduced by symmetry.
//!
//! A node is an index slot of subspace `(a, b)` or, after those, of `(b, a)`;
//! with `a == b` the two are one. A live node is a canonical slot and stands
//! for all positions symmetric to the one it holds.

use vstd::prelude::*;

use crate::game::{
    decided_below, in_pair, lemma_minimax_image, lemma_pair_closed, loses_at, reply, total, wins_at, Score,
};
use crate::index::{
    canonical_slots_round_trip, lemma_slot_pos, playable, slot_of, slot_pos, slots,
    slots_hold_canonical_forms, slots_tell_classes_apart, stones, SubspaceId,
};
use crate::mask::count;
use crate::movegen::{
    captures_below, lemma_move_counts, quiet_edge, quiet_predecessors_reverse_quiet_moves, quiet_preds,
    steps_below, steps_from_below, successors_are_the_legal_moves, succs,
};
use crate::orbit::{class_count, class_weight, forward_and_backward_edges_balance};
use crate::pos::Position;
use crate::symmetry::{
    canon, canon_sym, canonical_form_is_idempotent, canonical_form_is_the_least_image, image_pos, inverse,
    lemma_image_pos, lemma_image_pos_inverse, stab,
};

verus! {

/// A material pair, with the worth of the positions that captures lead to.
pub struct Pair {
    pub a: nat,
    pub b: nat,
    pub smaller: spec_fn(Position) -> Score,
}

impl Pair {
    pub open spec fn ab(self) -> SubspaceId {
        SubspaceId { w: self.a as u8, b: self.b as u8 }
    }

    pub open spec fn ba(self) -> SubspaceId {
        SubspaceId { w: self.b as u8, b: self.a as u8 }
    }

    /// Both counts are stone counts of the movement phase, and the smaller
    /// worths are the same for symmetric positions, with depths that fit a
    /// code and tell wins from losses by parity.
    pub open spec fn wf(self) -> bool {
        &&& stones(self.a as int)
        &&& stones(self.b as int)
        &&& forall|g: int, s: Position| 0 <= g < 16 && s.wf() ==> (self.smaller)(#[trigger] image_pos(g, s)) == (self.smaller)(s)
        &&& forall|s: Position|
            match #[trigger] (self.smaller)(s) {
                Score::Win(d) => d % 2 == 1 && d < 0xffff,
                Score::Loss(d) => d % 2 == 0 && d < 0xffff,
                Score::Draw => true,
            }
    }

    /// The number of nodes.
    pub open spec fn nodes(self) -> nat {
        if self.a == self.b {
            slots(self.ab())
        } else {
            slots(self.ab()) + slots(self.ba())
        }
    }

    /// The position that a node holds.
    pub open spec fn pos(self, x: int) -> Position {
        if x < slots(self.ab()) {
            slot_pos(self.ab(), x as nat)
        } else {
            slot_pos(self.ba(), (x - slots(self.ab())) as nat)
        }
    }

    /// The node of a position of the pair.
    pub open spec fn node(self, p: Position) -> int {
        if count(p.w()) == self.a {
            slot_of(p) as int
        } else {
            (slots(self.ab()) + slot_of(p)) as int
        }
    }

    /// A node that holds a canonical position.
    pub open spec fn live(self, x: int) -> bool {
        0 <= x < self.nodes() && canon(self.pos(x)) == self.pos(x)
    }

    /// A quiet move leads from node `x` to `s`.
    pub open spec fn kid(self, x: int, s: Position) -> bool {
        succs(self.pos(x)).contains(s) && total(s) == total(self.pos(x))
    }

    /// A capture leads from node `x` to `s`.
    pub open spec fn cap(self, x: int, s: Position) -> bool {
        succs(self.pos(x)).contains(s) && total(s) < total(self.pos(x))
    }

    /// The worth of a position that a capture leads to.
    pub open spec fn cap_worth(self, s: Position) -> Score {
        if count(s.w()) < 3 {
            Score::Loss(0)
        } else {
            (self.smaller)(s)
        }
    }

    /// Some capture wins.
    pub open spec fn has_lost_cap(self, x: int) -> bool {
        exists|s: Position| #[trigger] self.cap(x, s) && self.cap_worth(s) is Loss
    }

    /// The depth at which captures alone would decide node `x`: a win through
    /// the fastest winning capture; or, where all moves are captures that
    /// lose, a loss through the slowest.
    pub open spec fn tent(self, x: int, e: nat) -> bool {
        if self.has_lost_cap(x) {
            &&& e > 0
            &&& exists|s: Position| #[trigger] self.cap(x, s) && self.cap_worth(s) == Score::Loss((e - 1) as nat)
            &&& forall|s: Position| #[trigger]
                self.cap(x, s) && self.cap_worth(s) is Loss ==> e - 1 <= self.cap_worth(s)->Loss_0
        } else {
            &&& forall|s: Position| !#[trigger] self.kid(x, s)
            &&& if succs(self.pos(x)).len() == 0 {
                e == 0
            } else {
                &&& e > 0
                &&& forall|s: Position| #[trigger]
                    self.cap(x, s) ==> self.cap_worth(s) is Win && self.cap_worth(s)->Win_0 <= e - 1
                &&& exists|s: Position| #[trigger] self.cap(x, s) && self.cap_worth(s) == Score::Win((e - 1) as nat)
            }
        }
    }
}

/// A node holds a position of the pair.
pub proof fn lemma_node_pos(pair: Pair, x: int)
    requires
        pair.wf(),
        0 <= x < pair.nodes(),
    ensures
        in_pair(pair.a, pair.b, pair.pos(x)),
        playable(pair.pos(x)),
        pair.live(x) ==> pair.node(pair.pos(x)) == x,
{
    if x < slots(pair.ab()) {
        lemma_slot_pos(pair.ab(), x as nat);
        canonical_slots_round_trip(pair.ab(), x as nat);
    } else {
        lemma_slot_pos(pair.ba(), (x - slots(pair.ab())) as nat);
        canonical_slots_round_trip(pair.ba(), (x - slots(pair.ab())) as nat);
    }
}

/// The node of a position holds its canonical form.
pub proof fn lemma_node(pair: Pair, p: Position)
    requires
        pair.wf(),
        in_pair(pair.a, pair.b, p),
    ensures
        pair.live(pair.node(p)),
        pair.pos(pair.node(p)) == canon(p),
        playable(p),
{
    slots_hold_canonical_forms(p);
    canonical_form_is_idempotent(p);
}

/// Two positions share a node exactly when they are symmetric.
pub proof fn lemma_same_node(pair: Pair, p: Position, q: Position)
    requires
        pair.wf(),
        in_pair(pair.a, pair.b, p),
        in_pair(pair.a, pair.b, q),
    ensures
        pair.node(p) == pair.node(q) <==> canon(p) == canon(q),
{
    lemma_node(pair, p);
    lemma_node(pair, q);
    canonical_form_is_idempotent(p);
    canonical_form_is_idempotent(q);
    if canon(p) == canon(q) {
        slots_tell_classes_apart(p, q);
    }
}

/// Where the moves from a node lead.
pub proof fn lemma_moves(pair: Pair, x: int, s: Position)
    requires
        pair.wf(),
        0 <= x < pair.nodes(),
        succs(pair.pos(x)).contains(s),
    ensures
        s.wf(),
        pair.kid(x, s) || pair.cap(x, s),
        pair.kid(x, s) ==> in_pair(pair.a, pair.b, s) && pair.live(pair.node(s)) && count(s.w()) >= 3,
        pair.cap(x, s) ==> count(s.w()) + 1 == count(pair.pos(x).b()) && count(s.b()) == count(pair.pos(x).w()),
        quiet_edge(pair.pos(x), s) <==> pair.kid(x, s),
{
    lemma_node_pos(pair, x);
    lemma_pair_closed(pair.a, pair.b, pair.pos(x), s);
    if pair.kid(x, s) {
        lemma_node(pair, s);
    }
}

/// What is decided of a position is decided of its images.
pub proof fn lemma_decided_image(pair: Pair, g: int, p: Position, d: nat)
    requires
        pair.wf(),
        0 <= g < 16,
        in_pair(pair.a, pair.b, p),
    ensures
        decided_below(pair.smaller, d)(image_pos(g, p)) == decided_below(pair.smaller, d)(p),
    decreases d, 1int,
{
    if d > 0 {
        let k = (d - 1) as nat;
        let q = image_pos(g, p);
        let known = decided_below(pair.smaller, k);
        let seen_p = |s: Position| reply(pair.smaller, known, p, s);
        let seen_q = |s: Position| reply(pair.smaller, known, q, s);
        lemma_image_pos(g, p);
        lemma_image_pos_inverse(g, p);
        lemma_decided_image(pair, g, p, k);
        lemma_decided_replies(pair, g, p, k);
        lemma_decided_replies(pair, inverse(g), q, k);
        if wins_at(p, seen_p, k) {
            lemma_minimax_image(g, p, seen_p, seen_q, Score::Win(k));
        }
        if loses_at(p, seen_p, k) {
            lemma_minimax_image(g, p, seen_p, seen_q, Score::Loss(k));
        }
        if wins_at(q, seen_q, k) {
            lemma_minimax_image(inverse(g), q, seen_q, seen_p, Score::Win(k));
        }
        if loses_at(q, seen_q, k) {
            lemma_minimax_image(inverse(g), q, seen_q, seen_p, Score::Loss(k));
        }
    }
}

proof fn lemma_decided_replies(pair: Pair, g: int, p: Position, k: nat)
    requires
        pair.wf(),
        0 <= g < 16,
        in_pair(pair.a, pair.b, p),
    ensures
        forall|s: Position| #[trigger]
            succs(p).contains(s) ==> reply(pair.smaller, decided_below(pair.smaller, k), p, s) == reply(
                pair.smaller,
                decided_below(pair.smaller, k),
                image_pos(g, p),
                image_pos(g, s),
            ),
    decreases k, 2int,
{
    assert forall|s: Position| #[trigger] succs(p).contains(s) implies reply(
        pair.smaller,
        decided_below(pair.smaller, k),
        p,
        s,
    ) == reply(pair.smaller, decided_below(pair.smaller, k), image_pos(g, p), image_pos(g, s)) by {
        lemma_pair_closed(pair.a, pair.b, p, s);
        lemma_image_pos(g, p);
        lemma_image_pos(g, s);
        if count(s.w()) >= 3 {
            if total(s) == total(p) {
                lemma_decided_image(pair, g, s, k);
            } else {
                assert((pair.smaller)(image_pos(g, s)) == (pair.smaller)(s));
            }
        }
    }
}

/// What is decided of a position is decided of its node.
pub proof fn lemma_decided_node(pair: Pair, p: Position, d: nat)
    requires
        pair.wf(),
        in_pair(pair.a, pair.b, p),
    ensures
        decided_below(pair.smaller, d)(p) == decided_below(pair.smaller, d)(pair.pos(pair.node(p))),
{
    lemma_node(pair, p);
    canonical_form_is_the_least_image(p);
    lemma_decided_image(pair, canon_sym(p), p, d);
}

/// How often `x` occurs in a list of nodes.
pub open spec fn occurrences(l: Seq<usize>, x: int) -> nat
    decreases l.len(),
{
    if l.len() == 0 {
        0
    } else {
        occurrences(l.drop_last(), x) + if l.last() == x {
            1nat
        } else {
            0
        }
    }
}

/// A node that occurs is in the list, and one in the list occurs.
pub proof fn lemma_occurs(l: Seq<usize>, x: int)
    ensures
        occurrences(l, x) > 0 <==> exists|k: int| 0 <= k < l.len() && #[trigger] l[k] == x,
    decreases l.len(),
{
    if l.len() > 0 {
        let r = l.drop_last();
        lemma_occurs(r, x);
        if exists|k: int| 0 <= k < r.len() && #[trigger] r[k] == x {
            let k = choose|k: int| 0 <= k < r.len() && #[trigger] r[k] == x;
            assert(l[k] == x);
        }
        if l.last() == x {
            assert(l[l.len() - 1] == x);
        }
        if exists|k: int| 0 <= k < l.len() && #[trigger] l[k] == x {
            let k = choose|k: int| 0 <= k < l.len() && #[trigger] l[k] == x;
            if k < r.len() {
                assert(r[k] == x);
            }
        }
    }
}

/// A list of nodes is that of a list of positions.
pub open spec fn nodes_of(pair: Pair, l: Seq<usize>, ps: Seq<Position>) -> bool {
    &&& l.len() == ps.len()
    &&& forall|k: int| 0 <= k < l.len() ==> #[trigger] l[k] == pair.node(ps[k])
    &&& forall|k: int| 0 <= k < l.len() ==> in_pair(pair.a, pair.b, #[trigger] ps[k])
}

proof fn lemma_occurrences(pair: Pair, l: Seq<usize>, ps: Seq<Position>, x: int)
    requires
        pair.wf(),
        pair.live(x),
        nodes_of(pair, l, ps),
    ensures
        occurrences(l, x) == class_count(ps, pair.pos(x)),
    decreases l.len(),
{
    if l.len() > 0 {
        let (lr, pr) = (l.drop_last(), ps.drop_last());
        assert forall|k: int| 0 <= k < lr.len() implies #[trigger] lr[k] == pair.node(pr[k]) by {
            assert(lr[k] == l[k] && pr[k] == ps[k]);
        }
        assert forall|k: int| 0 <= k < lr.len() implies in_pair(pair.a, pair.b, #[trigger] pr[k]) by {
            assert(pr[k] == ps[k]);
        }
        lemma_occurrences(pair, lr, pr, x);
        let n = l.len() - 1;
        assert(l[n] == pair.node(ps[n]));
        assert(in_pair(pair.a, pair.b, ps[n]));
        lemma_node_pos(pair, x);
        lemma_same_node(pair, ps[n], pair.pos(x));
    }
}

/// Quiet predecessors of a node are positions of the pair.
pub proof fn lemma_quiet_preds_in_pair(pair: Pair, y: int)
    requires
        pair.wf(),
        0 <= y < pair.nodes(),
    ensures
        forall|k: int| 0 <= k < quiet_preds(pair.pos(y)).len() ==> {
            let p = #[trigger] quiet_preds(pair.pos(y))[k];
            in_pair(pair.a, pair.b, p) && quiet_edge(p, pair.pos(y))
        },
{
    lemma_node_pos(pair, y);
    quiet_predecessors_reverse_quiet_moves(pair.pos(y));
    assert forall|k: int| 0 <= k < quiet_preds(pair.pos(y)).len() implies {
        let p = #[trigger] quiet_preds(pair.pos(y))[k];
        in_pair(pair.a, pair.b, p) && quiet_edge(p, pair.pos(y))
    } by {
        let p = quiet_preds(pair.pos(y))[k];
        assert(quiet_preds(pair.pos(y)).contains(p));
        lemma_move_counts(p, pair.pos(y));
    }
}

/// Node `x` occurs among the predecessors of node `y` exactly when a quiet
/// move leads from `x` into the class of `y`, and as often as the stabilizers
/// of the positions there weigh against its own.
pub proof fn lemma_predecessors(pair: Pair, x: int, y: int, preds: Seq<usize>)
    requires
        pair.wf(),
        pair.live(x),
        pair.live(y),
        nodes_of(pair, preds, quiet_preds(pair.pos(y))),
    ensures
        class_weight(succs(pair.pos(x)), pair.pos(y)) == occurrences(preds, x) * stab(pair.pos(x)),
        occurrences(preds, x) > 0 <==> exists|s: Position| #[trigger] pair.kid(x, s) && pair.node(s) == y,
{
    let (p, q) = (pair.pos(x), pair.pos(y));
    lemma_node_pos(pair, x);
    lemma_node_pos(pair, y);
    lemma_occurrences(pair, preds, quiet_preds(q), x);
    successors_are_the_legal_moves(p);
    quiet_predecessors_reverse_quiet_moves(q);
    assert forall|i: int| 0 <= i < succs(p).len() implies (#[trigger] succs(p)[i]).wf() by {
        assert(succs(p).contains(succs(p)[i]));
    }
    if count(q.w()) == count(p.b()) {
        forward_and_backward_edges_balance(p, q);
        lemma_class_weight_positive(succs(p), q);
        lemma_stab_positive(p);
        let (n, k) = (occurrences(preds, x), stab(p));
        assert(n * k > 0 <==> n > 0) by (nonlinear_arith)
            requires
                k > 0,
        ;
        if n > 0 {
            let i = choose|i: int| 0 <= i < succs(p).len() && canon(#[trigger] succs(p)[i]) == canon(q);
            let s = succs(p)[i];
            assert(succs(p).contains(s));
            lemma_same_canon_counts(s, q);
            lemma_moves(pair, x, s);
            assert(pair.kid(x, s));
            lemma_same_node(pair, s, q);
        }
        if exists|s: Position| #[trigger] pair.kid(x, s) && pair.node(s) == y {
            let s = choose|s: Position| #[trigger] pair.kid(x, s) && pair.node(s) == y;
            lemma_moves(pair, x, s);
            lemma_same_node(pair, s, q);
            let i = choose|i: int| 0 <= i < succs(p).len() && succs(p)[i] == s;
            assert(canon(succs(p)[i]) == canon(q));
        }
    } else {
        lemma_occurs(preds, x);
        if occurrences(preds, x) > 0 {
            let k = choose|k: int| 0 <= k < preds.len() && #[trigger] preds[k] == x;
            let r = quiet_preds(q)[k];
            lemma_quiet_preds_in_pair(pair, y);
            lemma_move_counts(r, q);
            lemma_same_node(pair, r, p);
            assert(preds[k] == pair.node(r));
            lemma_same_canon_counts(r, p);
        }
        if exists|s: Position| #[trigger] pair.kid(x, s) && pair.node(s) == y {
            let s = choose|s: Position| #[trigger] pair.kid(x, s) && pair.node(s) == y;
            lemma_moves(pair, x, s);
            lemma_move_counts(p, s);
            lemma_same_node(pair, s, q);
            lemma_same_canon_counts(s, q);
        }
        if class_weight(succs(p), q) > 0 {
            lemma_class_weight_positive(succs(p), q);
            let i = choose|i: int| 0 <= i < succs(p).len() && canon(#[trigger] succs(p)[i]) == canon(q);
            let s = succs(p)[i];
            assert(succs(p).contains(s));
            lemma_same_canon_counts(s, q);
            lemma_moves(pair, x, s);
            lemma_move_counts(p, s);
        }
        assert(0 * stab(p) == 0);
    }
}

/// Symmetric positions have the same stone counts.
pub proof fn lemma_same_canon_counts(p: Position, q: Position)
    requires
        p.wf(),
        q.wf(),
        canon(p) == canon(q),
    ensures
        count(p.w()) == count(q.w()),
        count(p.b()) == count(q.b()),
{
    canonical_form_is_idempotent(p);
    canonical_form_is_idempotent(q);
}

/// Every position is left in place by at least one symmetry.
pub proof fn lemma_stab_positive(p: Position)
    requires
        p.wf(),
    ensures
        1 <= stab(p) <= 16,
{
    crate::symmetry::lemma_image_pos_identity(p);
    lemma_stab_below_positive(p, 16);
}

proof fn lemma_stab_below_positive(p: Position, n: int)
    requires
        1 <= n,
        image_pos(0, p) == p,
    ensures
        1 <= crate::symmetry::stab_below(p, n) <= n,
    decreases n,
{
    if n > 1 {
        lemma_stab_below_positive(p, n - 1);
    } else {
        reveal_with_fuel(crate::symmetry::stab_below, 2);
    }
}

/// A class has weight in a list exactly when the list holds one of it.
proof fn lemma_class_weight_positive(l: Seq<Position>, q: Position)
    requires
        forall|i: int| 0 <= i < l.len() ==> (#[trigger] l[i]).wf(),
    ensures
        class_weight(l, q) > 0 <==> exists|i: int| 0 <= i < l.len() && canon(#[trigger] l[i]) == canon(q),
    decreases l.len(),
{
    if l.len() > 0 {
        let r = l.drop_last();
        assert forall|i: int| 0 <= i < r.len() implies (#[trigger] r[i]).wf() by {
            assert(r[i] == l[i]);
        }
        lemma_class_weight_positive(r, q);
        let n = l.len() - 1;
        assert(l[n].wf());
        lemma_stab_positive(l[n]);
        if exists|i: int| 0 <= i < r.len() && canon(#[trigger] r[i]) == canon(q) {
            let i = choose|i: int| 0 <= i < r.len() && canon(#[trigger] r[i]) == canon(q);
            assert(canon(l[i]) == canon(q));
        }
        if exists|i: int| 0 <= i < l.len() && canon(#[trigger] l[i]) == canon(q) {
            let i = choose|i: int| 0 <= i < l.len() && canon(#[trigger] l[i]) == canon(q);
            if i < n {
                assert(canon(r[i]) == canon(q));
            }
        }
        if canon(l.last()) == canon(q) {
            assert(canon(l[n]) == canon(q));
        }
    }
}

proof fn lemma_captures_len(opponent: u32, n: int)
    requires
        0 <= n,
    ensures
        captures_below(opponent, n).len() <= n,
    decreases n,
{
    if n > 0 {
        lemma_captures_len(opponent, n - 1);
    }
}

proof fn lemma_steps_from_len(mover: u32, opponent: u32, from: int, n: int)
    requires
        0 <= n,
    ensures
        steps_from_below(mover, opponent, from, n).len() <= 24 * n,
    decreases n,
{
    if n > 0 {
        lemma_steps_from_len(mover, opponent, from, n - 1);
        lemma_captures_len(opponent, 24);
    }
}

proof fn lemma_steps_len(mover: u32, opponent: u32, n: int)
    requires
        0 <= n,
    ensures
        steps_below(mover, opponent, n).len() <= 576 * n,
    decreases n,
{
    if n > 0 {
        lemma_steps_len(mover, opponent, n - 1);
        lemma_steps_from_len(mover, opponent, n - 1, 24);
    }
}

/// No position has more than 24 * 24 * 24 moves.
pub proof fn lemma_succs_len(pos: Position)
    ensures
        succs(pos).len() <= 13824,
{
    lemma_steps_len(pos.w(), pos.b(), 24);
}

} // verus!
