//! The rules of the game, in terms of points, lines and mills alone, and that
//! the generated moves are the moves that the rules allow.

use vstd::prelude::*;

use crate::board::{in_mill, lemma_adj, lemma_mills, mill_full, on_mill, ADJ, MILLS};
use crate::mask::{count, group_mask, lemma_ext, lemma_on_board, member, with, without};
use crate::movegen::{
    blocked_positions_have_no_move, capture_edge, is_capture, is_quiet_move, lemma_relocate, place_leads,
    placements, placements_are_the_legal_placements, quiet_edge, quiet_predecessors_reverse_quiet_moves,
    quiet_preds, relocate, removable, successors_are_the_legal_moves, succs,
};
use crate::pos::{lemma_halves_on_board, may_step, Position};

verus! {

/// Some three in a row through `p` carries stones of `m` only.
pub open spec fn closes(m: u32, p: int) -> bool {
    exists|k: int|
        0 <= k < 16 && member(#[trigger] MILLS[k], p) && forall|q: int| #[trigger] member(MILLS[k], q) ==> member(m, q)
}

/// The stone on `p` can be taken from `m`: it is in no mill, or all are.
pub open spec fn can_be_taken(m: u32, p: int) -> bool {
    member(m, p) && (closes(m, p) ==> forall|q: int| #[trigger] member(m, q) ==> closes(m, q))
}

/// Point `p` is on the board, and no stone is on it.
pub open spec fn is_free(pos: Position, p: int) -> bool {
    0 <= p < 24 && !member(pos.w(), p) && !member(pos.b(), p)
}

/// What becomes of the opponent's stones when the mover's, now `after`, have one
/// newly on `to`: one is taken if that closed a mill, else none.
pub open spec fn opponent_after(pos: Position, after: u32, to: int, s: Position) -> bool {
    if closes(after, to) {
        exists|t: int| #[trigger]
            can_be_taken(pos.b(), t) && forall|q: int| #[trigger] member(s.w(), q) <==> member(pos.b(), q) && q != t
    } else {
        forall|q: int| #[trigger] member(s.w(), q) <==> member(pos.b(), q)
    }
}

/// The rules allow the mover of `pos` to take the stone on `from` to `to`, which
/// makes `s`, in which the other side moves: along a line, or with exactly three
/// stones to any free point.
pub open spec fn rules_allow_move(pos: Position, from: int, to: int, s: Position) -> bool {
    &&& member(pos.w(), from)
    &&& is_free(pos, to)
    &&& count(pos.w()) == 3 || member(ADJ[from], to)
    &&& forall|q: int| #[trigger] member(s.b(), q) <==> q == to || member(pos.w(), q) && q != from
    &&& opponent_after(pos, s.b(), to, s)
}

/// The rules allow the mover of `pos` to place a stone on `to`, which makes `s`.
pub open spec fn rules_allow_placement(pos: Position, to: int, s: Position) -> bool {
    &&& is_free(pos, to)
    &&& forall|q: int| #[trigger] member(s.b(), q) <==> q == to || member(pos.w(), q)
    &&& opponent_after(pos, s.b(), to, s)
}

/// A mill is closed as the lines say.
pub proof fn mills_close_as_the_lines_say(m: u32, p: int)
    ensures
        in_mill(m, p) <==> closes(m, p),
{
    assert forall|k: int, q: int| 0 <= k < 16 implies #[trigger] member(MILLS[k], q) == on_mill(k, q) by {
        lemma_mills(k, q);
    }
    if in_mill(m, p) {
        let k = choose|k: int| #[trigger] on_mill(k, p) && mill_full(m, k);
        lemma_on_mill_range(k, p);
        assert(member(MILLS[k], p));
        assert forall|q: int| #[trigger] member(MILLS[k], q) implies member(m, q) by {
            assert(on_mill(k, q));
        }
    }
    if closes(m, p) {
        let k = choose|k: int|
            0 <= k < 16 && member(#[trigger] MILLS[k], p) && forall|q: int| #[trigger]
                member(MILLS[k], q) ==> member(m, q);
        assert(on_mill(k, p));
        assert forall|q: int| #[trigger] on_mill(k, q) implies member(m, q) by {
            assert(member(MILLS[k], q));
        }
    }
}

proof fn lemma_on_mill_range(k: int, p: int)
    requires
        on_mill(k, p),
    ensures
        0 <= k < 16,
{
    reveal(on_mill);
}

/// A stone can be taken as the rules say.
pub proof fn stones_are_taken_as_the_rules_say(m: u32, p: int)
    ensures
        removable(m, p) <==> can_be_taken(m, p),
{
    mills_close_as_the_lines_say(m, p);
    assert forall|q: int| in_mill(m, q) == #[trigger] closes(m, q) by {
        mills_close_as_the_lines_say(m, q);
    }
    if removable(m, p) && closes(m, p) {
        assert forall|q: int| #[trigger] member(m, q) implies closes(m, q) by {
            assert(in_mill(m, q));
        }
    }
    if can_be_taken(m, p) && in_mill(m, p) {
        assert forall|q: int| #[trigger] member(m, q) implies in_mill(m, q) by {
            assert(closes(m, q));
        }
    }
}

/// Sets with the same points are the same.
proof fn lemma_same(a: u32, b: u32)
    requires
        forall|q: int| #[trigger] member(a, q) <==> member(b, q),
    ensures
        a == b,
{
    lemma_ext(a, b);
}

proof fn lemma_opponent_after(pos: Position, after: u32, to: int, s: Position)
    ensures
        opponent_after(pos, after, to, s) <==> if in_mill(after, to) {
            exists|t: int| #[trigger] removable(pos.b(), t) && s.w() == without(pos.b(), t)
        } else {
            s.w() == pos.b()
        },
{
    broadcast use group_mask;
    mills_close_as_the_lines_say(after, to);
    assert forall|t: int| #[trigger] removable(pos.b(), t) <==> can_be_taken(pos.b(), t) by {
        stones_are_taken_as_the_rules_say(pos.b(), t);
    }
    if in_mill(after, to) {
        if opponent_after(pos, after, to, s) {
            let t = choose|t: int| #[trigger]
                can_be_taken(pos.b(), t) && forall|q: int| #[trigger] member(s.w(), q) <==> member(pos.b(), q) && q != t;
            lemma_same(s.w(), without(pos.b(), t));
            assert(removable(pos.b(), t));
        }
        if exists|t: int| #[trigger] removable(pos.b(), t) && s.w() == without(pos.b(), t) {
            let t = choose|t: int| #[trigger] removable(pos.b(), t) && s.w() == without(pos.b(), t);
            assert(can_be_taken(pos.b(), t));
        }
    } else if opponent_after(pos, after, to, s) {
        lemma_same(s.w(), pos.b());
    }
}

/// The generated moves are the moves that the rules allow, all of them and no
/// others, and none is listed twice.
pub proof fn generated_moves_are_the_legal_moves(pos: Position, s: Position)
    requires
        pos.wf(),
        s.wf(),
    ensures
        succs(pos).contains(s) <==> exists|from: int, to: int| #[trigger] rules_allow_move(pos, from, to, s),
        succs(pos).no_duplicates(),
{
    broadcast use group_mask;
    successors_are_the_legal_moves(pos);
    lemma_halves_on_board(pos);
    lemma_on_board(pos.w());
    assert forall|from: int, to: int| member(pos.w(), from) && s.b() == #[trigger] relocate(pos.w(), from, to) && is_free(
        pos,
        to,
    ) implies forall|q: int| #[trigger] member(s.b(), q) <==> q == to || member(pos.w(), q) && q != from by {
        lemma_relocate(pos.w(), pos.b(), from, to);
    }
    if succs(pos).contains(s) {
        if quiet_edge(pos, s) {
            let (from, to) = choose|from: int, to: int| is_quiet_move(pos, s, from, to);
            lemma_adj(from, to);
            lemma_opponent_after(pos, s.b(), to, s);
            assert(s.b() == relocate(pos.w(), from, to));
            assert(rules_allow_move(pos, from, to, s));
        } else {
            let (from, to, t) = choose|from: int, to: int, t: int| is_capture(pos, s, from, to, t);
            lemma_adj(from, to);
            lemma_opponent_after(pos, s.b(), to, s);
            assert(removable(pos.b(), t));
            assert(s.b() == relocate(pos.w(), from, to));
            assert(rules_allow_move(pos, from, to, s));
        }
    }
    if exists|from: int, to: int| #[trigger] rules_allow_move(pos, from, to, s) {
        let (from, to) = choose|from: int, to: int| #[trigger] rules_allow_move(pos, from, to, s);
        lemma_adj(from, to);
        lemma_relocate(pos.w(), pos.b(), from, to);
        lemma_same(s.b(), relocate(pos.w(), from, to));
        lemma_opponent_after(pos, s.b(), to, s);
        if in_mill(s.b(), to) {
            let t = choose|t: int| #[trigger] removable(pos.b(), t) && s.w() == without(pos.b(), t);
            assert(is_capture(pos, s, from, to, t));
        } else {
            assert(is_quiet_move(pos, s, from, to));
        }
    }
}

/// The generated placements are the placements that the rules allow, all of
/// them and no others, and none is listed twice.
pub proof fn generated_placements_are_the_legal_placements(pos: Position, s: Position)
    requires
        pos.wf(),
        s.wf(),
    ensures
        placements(pos.w(), pos.b()).contains(s) <==> exists|to: int| #[trigger] rules_allow_placement(pos, to, s),
        placements(pos.w(), pos.b()).no_duplicates(),
{
    broadcast use group_mask;
    placements_are_the_legal_placements(pos);
    assert forall|to: int| #[trigger] place_leads(pos.w(), pos.b(), to, s) <==> rules_allow_placement(pos, to, s) by {
        if is_free(pos, to) {
            lemma_opponent_after(pos, s.b(), to, s);
            if rules_allow_placement(pos, to, s) {
                lemma_same(s.b(), with(pos.w(), to));
            }
        }
    }
    if exists|to: int| #[trigger] place_leads(pos.w(), pos.b(), to, s) {
        let to = choose|to: int| #[trigger] place_leads(pos.w(), pos.b(), to, s);
        assert(rules_allow_placement(pos, to, s));
    }
    if exists|to: int| #[trigger] rules_allow_placement(pos, to, s) {
        let to = choose|to: int| #[trigger] rules_allow_placement(pos, to, s);
        assert(place_leads(pos.w(), pos.b(), to, s));
    }
}

/// The generated reverse moves lead back to exactly the positions from which a
/// move that takes no stone leads here.
pub proof fn reverse_moves_undo_quiet_moves(pos: Position, p: Position)
    requires
        pos.wf(),
        p.wf(),
    ensures
        quiet_preds(pos).contains(p) <==> succs(p).contains(pos) && pos.w() == p.b(),
        quiet_preds(pos).no_duplicates(),
{
    broadcast use group_mask;
    quiet_predecessors_reverse_quiet_moves(pos);
    successors_are_the_legal_moves(p);
    if capture_edge(p, pos) {
        let (from, to, t) = choose|from: int, to: int, t: int| is_capture(p, pos, from, to, t);
        assert(member(p.b(), t) && !member(pos.w(), t));
    }
}

/// The stone on `from` has a way to `to`: along a line, or with exactly three
/// stones anywhere that is free.
pub open spec fn has_a_way(pos: Position, from: int, to: int) -> bool {
    member(pos.w(), from) && is_free(pos, to) && (count(pos.w()) == 3 || member(ADJ[from], to))
}

/// A side has a move exactly when some stone of it has a way, and is blocked
/// exactly when it has none.
pub proof fn sides_move_while_they_can(pos: Position)
    requires
        pos.wf(),
        count(pos.b()) > 0,
    ensures
        succs(pos).len() > 0 <==> exists|from: int, to: int| #[trigger] has_a_way(pos, from, to),
        pos.blocked() <==> succs(pos).len() == 0,
{
    broadcast use group_mask;
    blocked_positions_have_no_move(pos);
    lemma_halves_on_board(pos);
    lemma_on_board(pos.w());
    if !pos.blocked() {
        let (from, to) = choose|from: int, to: int| #[trigger] may_step(pos.w(), pos.b(), from, to);
        lemma_adj(from, to);
        assert(has_a_way(pos, from, to));
    }
    if exists|from: int, to: int| #[trigger] has_a_way(pos, from, to) {
        let (from, to) = choose|from: int, to: int| #[trigger] has_a_way(pos, from, to);
        lemma_adj(from, to);
        assert(may_step(pos.w(), pos.b(), from, to));
    }
}

} // verus!
