//! Move generation: forward moves (placement and movement, with the captures
//! that closing a mill brings) and reverse quiet moves (which lead back to
//! the positions that retrograde analysis updates).
//!
//! Closing two mills with one move still removes only one stone; if all
//! opponent stones are in mills, a mill closure may remove any of them.

use vstd::prelude::*;

use crate::board::{adjacency_is_symmetric, adjacent, in_mill, lemma_adj, ADJ, N};
use crate::mask::{
    contains, count, disjoint, group_mask, insert, lemma_count_with, lemma_count_without, lemma_count_zero,
    lemma_disjoint, lemma_ext, lemma_nonzero, lemma_on_board, member, on_board, remove, with, without,
    FULL_MASK,
};
use crate::pos::{lemma_halves_on_board, lemma_pack, lemma_pos_ext, may_step, pack, vacant, Position};

verus! {

/// The stone on `p` may be captured: it is in no mill, or every stone of its
/// side is in one.
pub open spec fn removable(opponent: u32, p: int) -> bool {
    &&& member(opponent, p)
    &&& !in_mill(opponent, p) || forall|q: int| #[trigger] member(opponent, q) ==> in_mill(opponent, q)
}

/// What `opponent` can be after a capture of a removable stone below `n`, in
/// ascending order of the stone.
pub open spec fn captures_below(opponent: u32, n: int) -> Seq<u32>
    decreases n,
{
    if n <= 0 {
        Seq::empty()
    } else if removable(opponent, n - 1) {
        captures_below(opponent, n - 1).push(without(opponent, n - 1))
    } else {
        captures_below(opponent, n - 1)
    }
}

/// What `opponent` can be once `mover` has brought a stone to `dest`.
pub open spec fn resolved(mover: u32, opponent: u32, dest: int) -> Seq<u32> {
    if in_mill(mover, dest) {
        captures_below(opponent, 24)
    } else {
        seq![opponent]
    }
}

/// The positions that follow when `mover` has brought a stone to `dest`; the
/// other side is to move in them.
pub open spec fn arrivals(mover: u32, opponent: u32, dest: int) -> Seq<Position> {
    resolved(mover, opponent, dest).map_values(|o: u32| pack(o, mover))
}

/// The stones of `mover` after one went from `from` to `to`.
pub open spec fn relocate(mover: u32, from: int, to: int) -> u32 {
    with(without(mover, from), to)
}

/// The placements on points below `n`.
pub open spec fn placements_below(mover: u32, opponent: u32, n: int) -> Seq<Position>
    decreases n,
{
    if n <= 0 {
        Seq::empty()
    } else if vacant(mover, opponent, n - 1) {
        placements_below(mover, opponent, n - 1) + arrivals(with(mover, n - 1), opponent, n - 1)
    } else {
        placements_below(mover, opponent, n - 1)
    }
}

/// The moves of the stone on `from` to points below `n`.
pub open spec fn steps_from_below(mover: u32, opponent: u32, from: int, n: int) -> Seq<Position>
    decreases n,
{
    if n <= 0 {
        Seq::empty()
    } else if may_step(mover, opponent, from, n - 1) {
        steps_from_below(mover, opponent, from, n - 1) + arrivals(
            relocate(mover, from, n - 1),
            opponent,
            n - 1,
        )
    } else {
        steps_from_below(mover, opponent, from, n - 1)
    }
}

/// The moves of the stones below `n`.
pub open spec fn steps_below(mover: u32, opponent: u32, n: int) -> Seq<Position>
    decreases n,
{
    if n <= 0 {
        Seq::empty()
    } else {
        steps_below(mover, opponent, n - 1) + steps_from_below(mover, opponent, n - 1, 24)
    }
}

/// All placements, by destination and then by captured stone.
pub open spec fn placements(mover: u32, opponent: u32) -> Seq<Position> {
    placements_below(mover, opponent, 24)
}

/// All movement-phase moves, by origin, destination and captured stone.
pub open spec fn steps(mover: u32, opponent: u32) -> Seq<Position> {
    steps_below(mover, opponent, 24)
}

/// The movement-phase successors of a position.
pub open spec fn succs(pos: Position) -> Seq<Position> {
    steps(pos.w(), pos.b())
}

/// The stones a side may capture, as a set.
pub fn removable_stones(opponent: u32) -> (m: u32)
    requires
        on_board(opponent),
    ensures
        forall|p: int| #[trigger] member(m, p) == removable(opponent, p),
        on_board(m),
{
    broadcast use group_mask;

    let mut not_in_mill: u32 = 0;
    let mut p: usize = 0;
    while p < N
        invariant
            p <= 24,
            forall|q: int| #[trigger] member(not_in_mill, q) == (q < p && member(opponent, q) && !in_mill(opponent, q)),
        decreases 24 - p,
    {
        broadcast use group_mask;
        if contains(opponent, p) && !Position::is_mill_at(opponent, p) {
            not_in_mill = insert(not_in_mill, p);
        }
        p = p + 1;
    }
    proof {
        lemma_on_board(opponent);
        lemma_on_board(not_in_mill);
        lemma_nonzero(not_in_mill);
        if not_in_mill == 0 {
            assert forall|q: int| #[trigger] member(opponent, q) implies in_mill(opponent, q) by {
                assert(!member(not_in_mill, q));
            }
        } else {
            let q = choose|q: int| 0 <= q < 32 && member(not_in_mill, q);
            assert(member(opponent, q) && !in_mill(opponent, q));
        }
    }
    if not_in_mill == 0 {
        opponent
    } else {
        not_in_mill
    }
}

/// What `opponent` can be once `mover` has brought a stone to `dest`: one per
/// legal capture if that closed a mill, else `opponent` unchanged.
pub fn resolve_mill(mover: u32, opponent: u32, dest: usize) -> (out: Vec<u32>)
    requires
        on_board(opponent),
        dest < 24,
    ensures
        out@ == resolved(mover, opponent, dest as int),
{
    let mut out: Vec<u32> = Vec::new();
    if !Position::is_mill_at(mover, dest) {
        out.push(opponent);
        assert(out@ =~= resolved(mover, opponent, dest as int));
        return out;
    }
    let free: u32 = removable_stones(opponent);
    let mut s: usize = 0;
    while s < N
        invariant
            s <= 24,
            forall|p: int| #[trigger] member(free, p) == removable(opponent, p),
            out@ == captures_below(opponent, s as int),
        decreases 24 - s,
    {
        if contains(free, s) {
            out.push(remove(opponent, s));
        }
        s = s + 1;
    }
    out
}

/// Every capture leaves the sides apart and on the board.
proof fn lemma_captures_apart(mover: u32, opponent: u32, n: int)
    requires
        on_board(opponent),
        disjoint(mover, opponent),
    ensures
        forall|i: int|
            0 <= i < captures_below(opponent, n).len() ==> on_board(#[trigger] captures_below(opponent, n)[i]) && disjoint(
                captures_below(opponent, n)[i],
                mover,
            ),
    decreases n,
{
    broadcast use group_mask;
    if n > 0 {
        lemma_captures_apart(mover, opponent, n - 1);
        let left = without(opponent, n - 1);
        lemma_disjoint(mover, opponent);
        lemma_disjoint(left, mover);
        lemma_on_board(opponent);
        lemma_on_board(left);
        let (r, l) = (captures_below(opponent, n - 1), captures_below(opponent, n));
        assert forall|i: int| 0 <= i < l.len() implies on_board(#[trigger] l[i]) && disjoint(l[i], mover) by {
            if i < r.len() {
                assert(l[i] == r[i]);
            }
        }
    }
}

/// Appends the positions that follow when `mover` has brought a stone to
/// `dest`.
fn push_arrivals(mover: u32, opponent: u32, dest: usize, out: &mut Vec<Position>)
    requires
        on_board(mover),
        on_board(opponent),
        disjoint(mover, opponent),
        dest < 24,
    ensures
        final(out)@ == old(out)@ + arrivals(mover, opponent, dest as int),
{
    proof {
        lemma_disjoint(mover, opponent);
    }
    if !Position::is_mill_at(mover, dest) {
        out.push(Position::new(opponent, mover));
        assert(out@ =~= old(out)@ + arrivals(mover, opponent, dest as int));
        return;
    }
    let left: Vec<u32> = resolve_mill(mover, opponent, dest);
    proof {
        lemma_captures_apart(mover, opponent, 24);
    }
    let ghost start = out@;
    let ghost f = |o: u32| pack(o, mover);
    let mut i: usize = 0;
    while i < left.len()
        invariant
            i <= left.len(),
            on_board(mover),
            f == (|o: u32| pack(o, mover)),
            forall|k: int| 0 <= k < left.len() ==> on_board(#[trigger] left@[k]) && disjoint(left@[k], mover),
            out@ == start + left@.take(i as int).map_values(f),
        decreases left.len() - i,
    {
        let ghost before = out@;
        out.push(Position::new(left[i], mover));
        assert(left@.take(i + 1).map_values(f) =~= left@.take(i as int).map_values(f).push(f(left@[i as int])));
        assert(out@ =~= start + left@.take(i + 1).map_values(f));
        i = i + 1;
    }
    assert(left@.take(i as int) =~= left@);
}

/// Forward moves of the placement phase: a mover stone on any vacant point,
/// with the captures that closing a mill brings. The other side is to move in
/// the positions returned.
pub fn moves_placement(mover: u32, opponent: u32) -> (out: Vec<Position>)
    requires
        on_board(mover),
        on_board(opponent),
        disjoint(mover, opponent),
    ensures
        out@ == placements(mover, opponent),
{
    let mut out: Vec<Position> = Vec::new();
    let occupied: u32 = mover | opponent;
    let mut to: usize = 0;
    while to < N
        invariant
            to <= 24,
            on_board(mover),
            on_board(opponent),
            disjoint(mover, opponent),
            occupied == mover | opponent,
            out@ == placements_below(mover, opponent, to as int),
        decreases 24 - to,
    {
        broadcast use group_mask;
        if !contains(occupied, to) {
            let new_mover: u32 = insert(mover, to);
            proof {
                lemma_disjoint(mover, opponent);
                lemma_disjoint(new_mover, opponent);
                lemma_on_board(mover);
                lemma_on_board(new_mover);
            }
            push_arrivals(new_mover, opponent, to, &mut out);
        }
        to = to + 1;
    }
    out
}

/// Taking a stone to a vacant point keeps the two sides apart and on the board.
pub proof fn lemma_relocate(mover: u32, opponent: u32, from: int, to: int)
    requires
        on_board(mover),
        on_board(opponent),
        disjoint(mover, opponent),
        member(mover, from),
        vacant(mover, opponent, to),
    ensures
        on_board(relocate(mover, from, to)),
        disjoint(relocate(mover, from, to), opponent),
        count(relocate(mover, from, to)) == count(mover),
        forall|p: int| #[trigger]
            member(relocate(mover, from, to), p) == (p == to || member(mover, p) && p != from),
{
    broadcast use group_mask;
    let m = relocate(mover, from, to);
    lemma_disjoint(mover, opponent);
    lemma_disjoint(m, opponent);
    lemma_on_board(mover);
    lemma_on_board(m);
    lemma_count_without(mover, from);
    lemma_count_with(without(mover, from), to);
}

/// Forward moves of the movement phase: a slide to an adjacent vacant point,
/// or with exactly three stones a jump to any vacant point, with the captures
/// that closing a mill brings. The other side is to move in the positions
/// returned.
pub fn moves_movement(mover: u32, opponent: u32) -> (out: Vec<Position>)
    requires
        on_board(mover),
        on_board(opponent),
        disjoint(mover, opponent),
    ensures
        out@ == steps(mover, opponent),
{
    let mut out: Vec<Position> = Vec::new();
    let empty: u32 = !(mover | opponent) & FULL_MASK;
    let jump: bool = mover.count_ones() == 3;
    let mut from: usize = 0;
    while from < N
        invariant
            from <= 24,
            on_board(mover),
            on_board(opponent),
            disjoint(mover, opponent),
            empty == !(mover | opponent) & FULL_MASK,
            jump == (count(mover) == 3),
            out@ == steps_below(mover, opponent, from as int),
        decreases 24 - from,
    {
        broadcast use group_mask;
        let dests: u32 = if !contains(mover, from) {
            0
        } else if jump {
            empty
        } else {
            ADJ[from] & empty
        };
        proof {
            assert forall|to: int| #[trigger] member(dests, to) == may_step(mover, opponent, from as int, to) by {
                lemma_adj(from as int, to);
            }
        }
        let ghost start = out@;
        let mut to: usize = 0;
        while to < N
            invariant
                to <= 24,
                from < 24,
                on_board(mover),
                on_board(opponent),
                disjoint(mover, opponent),
                forall|to: int| #[trigger] member(dests, to) == may_step(mover, opponent, from as int, to),
                out@ == start + steps_from_below(mover, opponent, from as int, to as int),
            decreases 24 - to,
        {
            if contains(dests, to) {
                let new_mover: u32 = insert(remove(mover, from), to);
                proof {
                    lemma_relocate(mover, opponent, from as int, to as int);
                }
                let ghost before = out@;
                push_arrivals(new_mover, opponent, to, &mut out);
                assert(out@ =~= start + steps_from_below(mover, opponent, from as int, to + 1));
            }
            to = to + 1;
        }
        from = from + 1;
    }
    out
}

/// All legal successors of `pos` in the movement phase. Terminal conditions
/// are not looked at.
pub fn successors(pos: Position) -> (out: Vec<Position>)
    requires
        disjoint(pos.w(), pos.b()),
    ensures
        out@ == succs(pos),
{
    moves_movement(pos.white(), pos.black())
}

/// `next` follows from `pos` by the quiet move of a stone from `from` to
/// `to`: no mill is closed, so the other side keeps all its stones.
pub open spec fn is_quiet_move(pos: Position, next: Position, from: int, to: int) -> bool {
    &&& may_step(pos.w(), pos.b(), from, to)
    &&& next.b() == relocate(pos.w(), from, to)
    &&& next.w() == pos.b()
    &&& !in_mill(next.b(), to)
}

/// `next` follows from `pos` by some quiet move.
pub open spec fn quiet_edge(pos: Position, next: Position) -> bool {
    exists|from: int, to: int| is_quiet_move(pos, next, from, to)
}

/// `next` follows from `pos` by a move from `from` to `to` that closes a mill
/// and captures the stone on `taken`.
pub open spec fn is_capture(pos: Position, next: Position, from: int, to: int, taken: int) -> bool {
    &&& may_step(pos.w(), pos.b(), from, to)
    &&& next.b() == relocate(pos.w(), from, to)
    &&& in_mill(next.b(), to)
    &&& removable(pos.b(), taken)
    &&& next.w() == without(pos.b(), taken)
}

/// `next` follows from `pos` by some capture.
pub open spec fn capture_edge(pos: Position, next: Position) -> bool {
    exists|from: int, to: int, taken: int| is_capture(pos, next, from, to, taken)
}

/// The stone that arrived on `to` can have come from `from` by a quiet move.
pub open spec fn may_unstep(pos: Position, from: int, to: int) -> bool {
    &&& member(pos.b(), to)
    &&& !in_mill(pos.b(), to)
    &&& vacant(pos.w(), pos.b(), from)
    &&& count(pos.b()) == 3 || adjacent(to, from)
}

/// The quiet predecessors whose stone came from a point below `n` to `to`.
pub open spec fn unsteps_to_below(pos: Position, to: int, n: int) -> Seq<Position>
    decreases n,
{
    if n <= 0 {
        Seq::empty()
    } else if may_unstep(pos, n - 1, to) {
        unsteps_to_below(pos, to, n - 1).push(pack(relocate(pos.b(), to, n - 1), pos.w()))
    } else {
        unsteps_to_below(pos, to, n - 1)
    }
}

/// The quiet predecessors whose stone came to a point below `n`.
pub open spec fn unsteps_below(pos: Position, n: int) -> Seq<Position>
    decreases n,
{
    if n <= 0 {
        Seq::empty()
    } else {
        unsteps_below(pos, n - 1) + unsteps_to_below(pos, n - 1, 24)
    }
}

/// The quiet predecessors of a position, by arrival point and origin.
pub open spec fn quiet_preds(pos: Position) -> Seq<Position> {
    unsteps_below(pos, 24)
}

/// Reverse quiet moves: the positions that have `pos` as a successor by a
/// slide or jump that captures nothing. Both sides keep their stone counts,
/// so this never leaves a pair of subspaces.
///
/// The side that has just moved is `black` in `pos`; its move is taken back
/// from every point it can have arrived on. Whether the arrival closed a mill
/// depends on the board after the move alone, so a point in a mill has no
/// quiet arrival.
pub fn quiet_predecessors(pos: Position) -> (out: Vec<Position>)
    requires
        disjoint(pos.w(), pos.b()),
    ensures
        out@ == quiet_preds(pos),
{
    let arrived: u32 = pos.black();
    let other: u32 = pos.white();
    let empty: u32 = pos.empty();
    let jump: bool = arrived.count_ones() == 3;
    let mut out: Vec<Position> = Vec::new();
    let mut to: usize = 0;
    while to < N
        invariant
            to <= 24,
            arrived == pos.b(),
            other == pos.w(),
            on_board(arrived),
            on_board(other),
            disjoint(other, arrived),
            jump == (count(arrived) == 3),
            forall|p: int| #[trigger] member(empty, p) == vacant(pos.w(), pos.b(), p),
            out@ == unsteps_below(pos, to as int),
        decreases 24 - to,
    {
        broadcast use group_mask;
        let origins: u32 = if !contains(arrived, to) || Position::is_mill_at(arrived, to) {
            0
        } else if jump {
            empty
        } else {
            ADJ[to] & empty
        };
        proof {
            assert forall|from: int| #[trigger] member(origins, from) == may_unstep(pos, from, to as int) by {
                lemma_adj(to as int, from);
            }
        }
        let ghost start = out@;
        let mut from: usize = 0;
        while from < N
            invariant
                from <= 24,
                to < 24,
                arrived == pos.b(),
                other == pos.w(),
                on_board(arrived),
                on_board(other),
                disjoint(other, arrived),
                forall|from: int| #[trigger] member(origins, from) == may_unstep(pos, from, to as int),
                out@ == start + unsteps_to_below(pos, to as int, from as int),
            decreases 24 - from,
        {
            if contains(origins, from) {
                let before: u32 = insert(remove(arrived, to), from);
                proof {
                    lemma_disjoint(other, arrived);
                    lemma_relocate(arrived, other, to as int, from as int);
                }
                out.push(Position::new(before, other));
                assert(out@ =~= start + unsteps_to_below(pos, to as int, from + 1));
            }
            from = from + 1;
        }
        to = to + 1;
    }
    out
}

/// A concatenation holds what its parts hold.
pub proof fn lemma_concat_contains<T>(a: Seq<T>, b: Seq<T>, x: T)
    ensures
        (a + b).contains(x) <==> a.contains(x) || b.contains(x),
{
    if a.contains(x) {
        let i = choose|i: int| 0 <= i < a.len() && a[i] == x;
        assert((a + b)[i] == x);
    }
    if b.contains(x) {
        let i = choose|i: int| 0 <= i < b.len() && b[i] == x;
        assert((a + b)[a.len() + i] == x);
    }
}

/// Two lists without repetition and without a common item make one.
pub proof fn lemma_concat_distinct<T>(a: Seq<T>, b: Seq<T>)
    requires
        a.no_duplicates(),
        b.no_duplicates(),
        forall|x: T| !(a.contains(x) && #[trigger] b.contains(x)),
    ensures
        (a + b).no_duplicates(),
{
    let c = a + b;
    assert forall|i: int, j: int| 0 <= i < c.len() && 0 <= j < c.len() && i != j implies c[i] != c[j] by {
        if i < a.len() {
            assert(a.contains(c[i]));
        } else {
            assert(b.contains(c[i]));
        }
        if j < a.len() {
            assert(a.contains(c[j]));
        } else {
            assert(b.contains(c[j]));
        }
        assert(i >= a.len() ==> c[i] == b[i - a.len()]);
        assert(j >= a.len() ==> c[j] == b[j - a.len()]);
    }
}

/// `captures_below` lists every removable stone below the bound once.
proof fn lemma_captures(opponent: u32, n: int)
    requires
        0 <= n <= 24,
    ensures
        forall|o: u32| #[trigger]
            captures_below(opponent, n).contains(o) <==> exists|t: int|
                t < n && #[trigger] removable(opponent, t) && o == without(opponent, t),
        captures_below(opponent, n).no_duplicates(),
    decreases n,
{
    broadcast use group_mask;
    if n > 0 {
        lemma_captures(opponent, n - 1);
        let a = captures_below(opponent, n - 1);
        if removable(opponent, n - 1) {
            let x = without(opponent, n - 1);
            let b = seq![x];
            assert(captures_below(opponent, n) =~= a + b);
            assert(b[0] == x);
            assert forall|o: u32| #[trigger] captures_below(opponent, n).contains(o) <==> exists|t: int|
                t < n && #[trigger] removable(opponent, t) && o == without(opponent, t) by {
                lemma_concat_contains(a, b, o);
                if exists|t: int| t < n && #[trigger] removable(opponent, t) && o == without(opponent, t) {
                    let t = choose|t: int| t < n && #[trigger] removable(opponent, t) && o == without(opponent, t);
                    if t == n - 1 {
                        assert(b.contains(o));
                    } else {
                        assert(a.contains(o));
                    }
                }
                if a.contains(o) {
                    let t = choose|t: int|
                        t < n - 1 && #[trigger] removable(opponent, t) && o == without(opponent, t);
                    assert(t < n && removable(opponent, t) && o == without(opponent, t));
                }
            }
            assert forall|y: u32| !(a.contains(y) && #[trigger] b.contains(y)) by {
                if a.contains(y) && b.contains(y) {
                    let t = choose|t: int|
                        t < n - 1 && #[trigger] removable(opponent, t) && y == without(opponent, t);
                    assert(!member(y, n - 1));
                    assert(member(without(opponent, t), n - 1));
                }
            }
            lemma_concat_distinct(a, b);
        } else {
            assert forall|o: u32| #[trigger] captures_below(opponent, n).contains(o) <==> exists|t: int|
                t < n && #[trigger] removable(opponent, t) && o == without(opponent, t) by {
                if exists|t: int| t < n && #[trigger] removable(opponent, t) && o == without(opponent, t) {
                    let t = choose|t: int| t < n && #[trigger] removable(opponent, t) && o == without(opponent, t);
                    assert(t < n - 1);
                }
            }
        }
    }
}

/// `s` follows when `mover` has brought a stone to `dest`.
pub open spec fn arrives(mover: u32, opponent: u32, dest: int, s: Position) -> bool {
    &&& s.wf()
    &&& s.b() == mover
    &&& if in_mill(mover, dest) {
        exists|t: int| #[trigger] removable(opponent, t) && s.w() == without(opponent, t)
    } else {
        s.w() == opponent
    }
}

/// `arrivals` lists what `arrives` describes, each once.
pub proof fn lemma_arrivals(mover: u32, opponent: u32, dest: int)
    requires
        on_board(mover),
        on_board(opponent),
        disjoint(mover, opponent),
    ensures
        forall|s: Position| #[trigger]
            arrivals(mover, opponent, dest).contains(s) <==> arrives(mover, opponent, dest, s),
        arrivals(mover, opponent, dest).no_duplicates(),
{
    broadcast use group_mask;
    let r = resolved(mover, opponent, dest);
    let a = arrivals(mover, opponent, dest);
    lemma_captures(opponent, 24);
    lemma_on_board(opponent);
    assert forall|o: u32| #[trigger] r.contains(o) <==> if in_mill(mover, dest) {
        exists|t: int| #[trigger] removable(opponent, t) && o == without(opponent, t)
    } else {
        o == opponent
    } by {
        if in_mill(mover, dest) {
            if exists|t: int| #[trigger] removable(opponent, t) && o == without(opponent, t) {
                let t = choose|t: int| #[trigger] removable(opponent, t) && o == without(opponent, t);
                assert(t < 24);
            }
        } else {
            assert(r[0] == opponent);
        }
    }
    assert forall|o: u32| #[trigger] r.contains(o) implies on_board(o) && disjoint(o, mover) by {
        lemma_disjoint(mover, opponent);
        lemma_disjoint(o, mover);
        lemma_on_board(o);
    }
    assert(r.no_duplicates());
    assert forall|s: Position| #[trigger] a.contains(s) <==> arrives(mover, opponent, dest, s) by {
        if a.contains(s) {
            let i = choose|i: int| 0 <= i < a.len() && a[i] == s;
            assert(r.contains(r[i]));
            lemma_pack(r[i], mover);
        }
        if arrives(mover, opponent, dest, s) {
            assert(r.contains(s.w()));
            let i = choose|i: int| 0 <= i < r.len() && r[i] == s.w();
            lemma_pack(r[i], mover);
            lemma_pos_ext(s, a[i]);
            assert(a[i] == s);
        }
    }
    assert forall|i: int, j: int| 0 <= i < a.len() && 0 <= j < a.len() && i != j implies a[i] != a[j] by {
        assert(r.contains(r[i]) && r.contains(r[j]));
        lemma_pack(r[i], mover);
        lemma_pack(r[j], mover);
    }
}

/// Where the stone went can be told from the set it left behind.
pub proof fn lemma_relocate_injective(mover: u32, f1: int, t1: int, f2: int, t2: int)
    requires
        member(mover, f1),
        member(mover, f2),
        0 <= t1 < 32 && !member(mover, t1),
        0 <= t2 < 32 && !member(mover, t2),
        relocate(mover, f1, t1) == relocate(mover, f2, t2),
    ensures
        f1 == f2,
        t1 == t2,
{
    broadcast use group_mask;
    let m = relocate(mover, f1, t1);
    assert(member(m, t1) && member(m, t2) && !member(m, f1) && !member(m, f2));
}

/// The move from `from` to `to` leads from the given stones to `s`.
pub open spec fn step_leads(mover: u32, opponent: u32, from: int, to: int, s: Position) -> bool {
    may_step(mover, opponent, from, to) && arrives(relocate(mover, from, to), opponent, to, s)
}

proof fn lemma_steps_from(mover: u32, opponent: u32, from: int, n: int)
    requires
        on_board(mover),
        on_board(opponent),
        disjoint(mover, opponent),
        0 <= n <= 24,
    ensures
        forall|s: Position| #[trigger]
            steps_from_below(mover, opponent, from, n).contains(s) <==> exists|to: int|
                to < n && #[trigger] step_leads(mover, opponent, from, to, s),
        steps_from_below(mover, opponent, from, n).no_duplicates(),
    decreases n,
{
    broadcast use group_mask;
    if n > 0 {
        lemma_steps_from(mover, opponent, from, n - 1);
        let a = steps_from_below(mover, opponent, from, n - 1);
        let whole = steps_from_below(mover, opponent, from, n);
        if may_step(mover, opponent, from, n - 1) {
            lemma_relocate(mover, opponent, from, n - 1);
            let m = relocate(mover, from, n - 1);
            let b = arrivals(m, opponent, n - 1);
            lemma_arrivals(m, opponent, n - 1);
            assert forall|s: Position| #[trigger] whole.contains(s) <==> exists|to: int|
                to < n && #[trigger] step_leads(mover, opponent, from, to, s) by {
                lemma_concat_contains(a, b, s);
                if b.contains(s) {
                    assert(step_leads(mover, opponent, from, n - 1, s));
                }
                if a.contains(s) {
                    let to = choose|to: int| to < n - 1 && #[trigger] step_leads(mover, opponent, from, to, s);
                    assert(to < n && step_leads(mover, opponent, from, to, s));
                }
                if exists|to: int| to < n && #[trigger] step_leads(mover, opponent, from, to, s) {
                    let to = choose|to: int| to < n && #[trigger] step_leads(mover, opponent, from, to, s);
                    if to == n - 1 {
                        assert(b.contains(s));
                    } else {
                        assert(a.contains(s));
                    }
                }
            }
            assert forall|s: Position| !(a.contains(s) && #[trigger] b.contains(s)) by {
                if a.contains(s) && b.contains(s) {
                    let to = choose|to: int| to < n - 1 && #[trigger] step_leads(mover, opponent, from, to, s);
                    lemma_relocate_injective(mover, from, to, from, n - 1);
                }
            }
            lemma_concat_distinct(a, b);
        } else {
            assert forall|s: Position| #[trigger] whole.contains(s) <==> exists|to: int|
                to < n && #[trigger] step_leads(mover, opponent, from, to, s) by {
                if exists|to: int| to < n && #[trigger] step_leads(mover, opponent, from, to, s) {
                    let to = choose|to: int| to < n && #[trigger] step_leads(mover, opponent, from, to, s);
                    assert(to < n - 1);
                }
            }
        }
    } else {
        assert forall|to: int, s: Position| to < n implies !#[trigger] step_leads(mover, opponent, from, to, s) by {}
    }
}

proof fn lemma_steps_below(mover: u32, opponent: u32, n: int)
    requires
        on_board(mover),
        on_board(opponent),
        disjoint(mover, opponent),
        0 <= n <= 24,
    ensures
        forall|s: Position| #[trigger]
            steps_below(mover, opponent, n).contains(s) <==> exists|from: int, to: int|
                from < n && #[trigger] step_leads(mover, opponent, from, to, s),
        steps_below(mover, opponent, n).no_duplicates(),
    decreases n,
{
    broadcast use group_mask;
    if n > 0 {
        lemma_steps_below(mover, opponent, n - 1);
        lemma_steps_from(mover, opponent, n - 1, 24);
        let a = steps_below(mover, opponent, n - 1);
        let b = steps_from_below(mover, opponent, n - 1, 24);
        let whole = steps_below(mover, opponent, n);
        assert forall|s: Position| #[trigger] whole.contains(s) <==> exists|from: int, to: int|
            from < n && #[trigger] step_leads(mover, opponent, from, to, s) by {
            lemma_concat_contains(a, b, s);
            if a.contains(s) {
                let (from, to) = choose|from: int, to: int|
                    from < n - 1 && #[trigger] step_leads(mover, opponent, from, to, s);
                assert(from < n && step_leads(mover, opponent, from, to, s));
            }
            if exists|from: int, to: int| from < n && #[trigger] step_leads(mover, opponent, from, to, s) {
                let (from, to) = choose|from: int, to: int|
                    from < n && #[trigger] step_leads(mover, opponent, from, to, s);
                if from == n - 1 {
                    assert(to < 24);
                    assert(b.contains(s));
                } else {
                    assert(a.contains(s));
                }
            }
        }
        assert forall|s: Position| !(a.contains(s) && #[trigger] b.contains(s)) by {
            if a.contains(s) && b.contains(s) {
                let (from, to) = choose|from: int, to: int|
                    from < n - 1 && #[trigger] step_leads(mover, opponent, from, to, s);
                let to2 = choose|to2: int| to2 < 24 && #[trigger] step_leads(mover, opponent, n - 1, to2, s);
                lemma_relocate_injective(mover, from, to, n - 1, to2);
            }
        }
        lemma_concat_distinct(a, b);
    } else {
        assert forall|from: int, to: int, s: Position| from < n implies !#[trigger] step_leads(
            mover,
            opponent,
            from,
            to,
            s,
        ) by {}
    }
}

/// The successors of a position are exactly the positions that a quiet move
/// or a capture leads to, and none is listed twice.
pub proof fn successors_are_the_legal_moves(pos: Position)
    requires
        pos.wf(),
    ensures
        forall|s: Position| #[trigger]
            succs(pos).contains(s) <==> s.wf() && (quiet_edge(pos, s) || capture_edge(pos, s)),
        succs(pos).no_duplicates(),
{
    broadcast use group_mask;
    lemma_halves_on_board(pos);
    lemma_steps_below(pos.w(), pos.b(), 24);
    lemma_on_board(pos.w());
    assert forall|s: Position| #[trigger] succs(pos).contains(s) <==> s.wf() && (quiet_edge(pos, s)
        || capture_edge(pos, s)) by {
        if succs(pos).contains(s) {
            let (from, to) = choose|from: int, to: int|
                from < 24 && #[trigger] step_leads(pos.w(), pos.b(), from, to, s);
            if in_mill(s.b(), to) {
                let t = choose|t: int| #[trigger] removable(pos.b(), t) && s.w() == without(pos.b(), t);
                assert(is_capture(pos, s, from, to, t));
            } else {
                assert(is_quiet_move(pos, s, from, to));
            }
        }
        if s.wf() && quiet_edge(pos, s) {
            let (from, to) = choose|from: int, to: int| is_quiet_move(pos, s, from, to);
            assert(step_leads(pos.w(), pos.b(), from, to, s));
        }
        if s.wf() && capture_edge(pos, s) {
            let (from, to, t) = choose|from: int, to: int, t: int| is_capture(pos, s, from, to, t);
            assert(removable(pos.b(), t));
            assert(step_leads(pos.w(), pos.b(), from, to, s));
        }
    }
}

/// A quiet move keeps both stone counts; a capture takes one stone from the
/// side that is to move next.
pub proof fn lemma_move_counts(pos: Position, s: Position)
    requires
        pos.wf(),
    ensures
        quiet_edge(pos, s) ==> count(s.w()) == count(pos.b()) && count(s.b()) == count(pos.w()),
        capture_edge(pos, s) ==> count(s.w()) + 1 == count(pos.b()) && count(s.b()) == count(pos.w()),
{
    broadcast use group_mask;
    lemma_halves_on_board(pos);
    if quiet_edge(pos, s) {
        let (from, to) = choose|from: int, to: int| is_quiet_move(pos, s, from, to);
        lemma_relocate(pos.w(), pos.b(), from, to);
    }
    if capture_edge(pos, s) {
        let (from, to, t) = choose|from: int, to: int, t: int| is_capture(pos, s, from, to, t);
        lemma_relocate(pos.w(), pos.b(), from, to);
        lemma_count_without(pos.b(), t);
    }
}

proof fn lemma_unsteps_to(pos: Position, to: int, n: int)
    requires
        pos.wf(),
        0 <= n <= 24,
    ensures
        forall|p: Position| #[trigger]
            unsteps_to_below(pos, to, n).contains(p) <==> p.wf() && exists|from: int|
                from < n && #[trigger] is_quiet_move(p, pos, from, to),
        unsteps_to_below(pos, to, n).no_duplicates(),
    decreases n,
{
    broadcast use group_mask;
    lemma_halves_on_board(pos);
    if n > 0 {
        lemma_unsteps_to(pos, to, n - 1);
        let a = unsteps_to_below(pos, to, n - 1);
        let whole = unsteps_to_below(pos, to, n);
        assert forall|p: Position| p.wf() && #[trigger] is_quiet_move(p, pos, n - 1, to) implies may_unstep(
            pos,
            n - 1,
            to,
        ) && p == pack(relocate(pos.b(), to, n - 1), pos.w()) by {
            lemma_take_back(p, pos, n - 1, to);
        }
        if may_unstep(pos, n - 1, to) {
            let x = pack(relocate(pos.b(), to, n - 1), pos.w());
            lemma_play_again(pos, n - 1, to);
            let b = seq![x];
            assert(whole =~= a + b);
            assert(b[0] == x);
            assert forall|p: Position| #[trigger] whole.contains(p) <==> p.wf() && exists|from: int|
                from < n && #[trigger] is_quiet_move(p, pos, from, to) by {
                lemma_concat_contains(a, b, p);
                if a.contains(p) {
                    let from = choose|from: int| from < n - 1 && #[trigger] is_quiet_move(p, pos, from, to);
                    assert(from < n && is_quiet_move(p, pos, from, to));
                }
                if b.contains(p) {
                    assert(is_quiet_move(p, pos, n - 1, to));
                }
                if p.wf() && exists|from: int| from < n && #[trigger] is_quiet_move(p, pos, from, to) {
                    let from = choose|from: int| from < n && #[trigger] is_quiet_move(p, pos, from, to);
                    if from == n - 1 {
                        assert(b.contains(p));
                    } else {
                        assert(a.contains(p));
                    }
                }
            }
            assert forall|p: Position| !(a.contains(p) && #[trigger] b.contains(p)) by {
                if a.contains(p) && b.contains(p) {
                    let from = choose|from: int| from < n - 1 && #[trigger] is_quiet_move(p, pos, from, to);
                    assert(is_quiet_move(p, pos, n - 1, to));
                    lemma_relocate_injective(p.w(), from, to, n - 1, to);
                }
            }
            lemma_concat_distinct(a, b);
        } else {
            assert forall|p: Position| #[trigger] whole.contains(p) <==> p.wf() && exists|from: int|
                from < n && #[trigger] is_quiet_move(p, pos, from, to) by {
                if p.wf() && exists|from: int| from < n && #[trigger] is_quiet_move(p, pos, from, to) {
                    let from = choose|from: int| from < n && #[trigger] is_quiet_move(p, pos, from, to);
                    assert(from < n - 1);
                }
            }
        }
    } else {
        assert forall|from: int, p: Position| from < n implies !#[trigger] is_quiet_move(p, pos, from, to) by {}
    }
}

/// Taking a quiet move back.
proof fn lemma_take_back(p: Position, pos: Position, from: int, to: int)
    requires
        p.wf(),
        pos.wf(),
        is_quiet_move(p, pos, from, to),
    ensures
        may_unstep(pos, from, to),
        p == pack(relocate(pos.b(), to, from), pos.w()),
{
    broadcast use group_mask;
    lemma_halves_on_board(p);
    lemma_halves_on_board(pos);
    lemma_on_board(p.w());
    lemma_disjoint(p.w(), p.b());
    lemma_relocate(p.w(), p.b(), from, to);
    adjacency_is_symmetric(from, to);
    lemma_disjoint(pos.w(), pos.b());
    lemma_relocate(pos.b(), pos.w(), to, from);
    let m = relocate(pos.b(), to, from);
    assert forall|q: int| 0 <= q < 32 implies member(m, q) == member(p.w(), q) by {}
    lemma_ext(m, p.w());
    lemma_pack(m, pos.w());
    lemma_pos_ext(p, pack(m, pos.w()));
}

/// Playing a move that was taken back.
proof fn lemma_play_again(pos: Position, from: int, to: int)
    requires
        pos.wf(),
        may_unstep(pos, from, to),
    ensures
        ({
            let p = pack(relocate(pos.b(), to, from), pos.w());
            p.wf() && is_quiet_move(p, pos, from, to)
        }),
{
    broadcast use group_mask;
    lemma_halves_on_board(pos);
    lemma_on_board(pos.b());
    lemma_disjoint(pos.w(), pos.b());
    lemma_relocate(pos.b(), pos.w(), to, from);
    let m = relocate(pos.b(), to, from);
    let p = pack(m, pos.w());
    lemma_pack(m, pos.w());
    lemma_disjoint(m, pos.w());
    adjacency_is_symmetric(from, to);
    let back = relocate(m, from, to);
    assert forall|q: int| 0 <= q < 32 implies member(back, q) == member(pos.b(), q) by {}
    lemma_ext(back, pos.b());
}

proof fn lemma_unsteps_below(pos: Position, n: int)
    requires
        pos.wf(),
        0 <= n <= 24,
    ensures
        forall|p: Position| #[trigger]
            unsteps_below(pos, n).contains(p) <==> p.wf() && exists|from: int, to: int|
                to < n && #[trigger] is_quiet_move(p, pos, from, to),
        unsteps_below(pos, n).no_duplicates(),
    decreases n,
{
    broadcast use group_mask;
    if n > 0 {
        lemma_unsteps_below(pos, n - 1);
        lemma_unsteps_to(pos, n - 1, 24);
        let a = unsteps_below(pos, n - 1);
        let b = unsteps_to_below(pos, n - 1, 24);
        let whole = unsteps_below(pos, n);
        assert forall|p: Position| #[trigger] whole.contains(p) <==> p.wf() && exists|from: int, to: int|
            to < n && #[trigger] is_quiet_move(p, pos, from, to) by {
            lemma_concat_contains(a, b, p);
            if a.contains(p) {
                let (from, to) = choose|from: int, to: int| to < n - 1 && #[trigger] is_quiet_move(p, pos, from, to);
                assert(to < n && is_quiet_move(p, pos, from, to));
            }
            if p.wf() && exists|from: int, to: int| to < n && #[trigger] is_quiet_move(p, pos, from, to) {
                let (from, to) = choose|from: int, to: int| to < n && #[trigger] is_quiet_move(p, pos, from, to);
                if to == n - 1 {
                    lemma_take_back(p, pos, from, to);
                    assert(from < 24);
                    assert(b.contains(p));
                } else {
                    assert(a.contains(p));
                }
            }
        }
        assert forall|p: Position| !(a.contains(p) && #[trigger] b.contains(p)) by {
            if a.contains(p) && b.contains(p) {
                let (from, to) = choose|from: int, to: int| to < n - 1 && #[trigger] is_quiet_move(p, pos, from, to);
                let from2 = choose|from2: int| from2 < 24 && #[trigger] is_quiet_move(p, pos, from2, n - 1);
                lemma_relocate_injective(p.w(), from, to, from2, n - 1);
            }
        }
        lemma_concat_distinct(a, b);
    } else {
        assert forall|from: int, to: int, p: Position| to < n implies !#[trigger] is_quiet_move(p, pos, from, to) by {}
    }
}

/// Reverse quiet moves and forward quiet moves are the same edges: the quiet
/// predecessors of a position are exactly the positions with a quiet move to
/// it, and none is listed twice.
pub proof fn quiet_predecessors_reverse_quiet_moves(pos: Position)
    requires
        pos.wf(),
    ensures
        forall|p: Position| #[trigger] quiet_preds(pos).contains(p) <==> p.wf() && quiet_edge(p, pos),
        quiet_preds(pos).no_duplicates(),
{
    lemma_unsteps_below(pos, 24);
    assert forall|p: Position| #[trigger] quiet_preds(pos).contains(p) <==> p.wf() && quiet_edge(p, pos) by {
        if p.wf() && quiet_edge(p, pos) {
            let (from, to) = choose|from: int, to: int| is_quiet_move(p, pos, from, to);
            assert(to < 24);
        }
    }
}

proof fn lemma_placements_below(mover: u32, opponent: u32, n: int)
    requires
        on_board(mover),
        on_board(opponent),
        disjoint(mover, opponent),
        0 <= n <= 24,
    ensures
        forall|s: Position| #[trigger]
            placements_below(mover, opponent, n).contains(s) <==> exists|to: int|
                to < n && #[trigger] place_leads(mover, opponent, to, s),
        placements_below(mover, opponent, n).no_duplicates(),
    decreases n,
{
    broadcast use group_mask;
    if n > 0 {
        lemma_placements_below(mover, opponent, n - 1);
        let a = placements_below(mover, opponent, n - 1);
        let whole = placements_below(mover, opponent, n);
        if vacant(mover, opponent, n - 1) {
            let m = with(mover, n - 1);
            lemma_on_board(mover);
            lemma_on_board(m);
            lemma_disjoint(mover, opponent);
            lemma_disjoint(m, opponent);
            let b = arrivals(m, opponent, n - 1);
            lemma_arrivals(m, opponent, n - 1);
            assert forall|s: Position| #[trigger] whole.contains(s) <==> exists|to: int|
                to < n && #[trigger] place_leads(mover, opponent, to, s) by {
                lemma_concat_contains(a, b, s);
                if b.contains(s) {
                    assert(place_leads(mover, opponent, n - 1, s));
                }
                if a.contains(s) {
                    let to = choose|to: int| to < n - 1 && #[trigger] place_leads(mover, opponent, to, s);
                    assert(to < n && place_leads(mover, opponent, to, s));
                }
                if exists|to: int| to < n && #[trigger] place_leads(mover, opponent, to, s) {
                    let to = choose|to: int| to < n && #[trigger] place_leads(mover, opponent, to, s);
                    if to == n - 1 {
                        assert(b.contains(s));
                    } else {
                        assert(a.contains(s));
                    }
                }
            }
            assert forall|s: Position| !(a.contains(s) && #[trigger] b.contains(s)) by {
                if a.contains(s) && b.contains(s) {
                    let to = choose|to: int| to < n - 1 && #[trigger] place_leads(mover, opponent, to, s);
                    assert(member(s.b(), n - 1));
                    assert(!member(with(mover, to), n - 1));
                }
            }
            lemma_concat_distinct(a, b);
        } else {
            assert forall|s: Position| #[trigger] whole.contains(s) <==> exists|to: int|
                to < n && #[trigger] place_leads(mover, opponent, to, s) by {
                if exists|to: int| to < n && #[trigger] place_leads(mover, opponent, to, s) {
                    let to = choose|to: int| to < n && #[trigger] place_leads(mover, opponent, to, s);
                    assert(to < n - 1);
                }
            }
        }
    } else {
        assert forall|to: int, s: Position| to < n implies !#[trigger] place_leads(mover, opponent, to, s) by {}
    }
}

/// Placing a stone on `to` leads from the given stones to `s`.
pub open spec fn place_leads(mover: u32, opponent: u32, to: int, s: Position) -> bool {
    vacant(mover, opponent, to) && arrives(with(mover, to), opponent, to, s)
}

/// The placements are exactly the positions that placing a stone on a vacant
/// point leads to, and none is listed twice.
pub proof fn placements_are_the_legal_placements(pos: Position)
    requires
        pos.wf(),
    ensures
        forall|s: Position| #[trigger]
            placements(pos.w(), pos.b()).contains(s) <==> exists|to: int| #[trigger]
                place_leads(pos.w(), pos.b(), to, s),
        placements(pos.w(), pos.b()).no_duplicates(),
{
    lemma_halves_on_board(pos);
    lemma_placements_below(pos.w(), pos.b(), 24);
    assert forall|s: Position| #[trigger] placements(pos.w(), pos.b()).contains(s) <==> exists|to: int| #[trigger]
        place_leads(pos.w(), pos.b(), to, s) by {
        if exists|to: int| #[trigger] place_leads(pos.w(), pos.b(), to, s) {
            let to = choose|to: int| #[trigger] place_leads(pos.w(), pos.b(), to, s);
            assert(to < 24 && place_leads(pos.w(), pos.b(), to, s));
        }
    }
}

/// A blocked side has no move, and a side that is not blocked has one, as long as
/// the opponent has a stone on the board.
pub proof fn blocked_positions_have_no_move(pos: Position)
    requires
        pos.wf(),
    ensures
        pos.blocked() ==> succs(pos).len() == 0,
        succs(pos).len() > 0 ==> !pos.blocked(),
        !pos.blocked() && count(pos.b()) > 0 ==> succs(pos).len() > 0,
{
    successors_are_the_legal_moves(pos);
    let l = succs(pos);
    if l.len() > 0 {
        assert(l.contains(l[0]));
        if quiet_edge(pos, l[0]) {
            let (from, to) = choose|from: int, to: int| is_quiet_move(pos, l[0], from, to);
            assert(may_step(pos.w(), pos.b(), from, to));
        } else {
            let (from, to, t) = choose|from: int, to: int, t: int| is_capture(pos, l[0], from, to, t);
            assert(may_step(pos.w(), pos.b(), from, to));
        }
    }
    if !pos.blocked() && count(pos.b()) > 0 {
        let (from, to) = choose|from: int, to: int| #[trigger] may_step(pos.w(), pos.b(), from, to);
        let s = lemma_step_leads_somewhere(pos, from, to);
        assert(l.contains(s));
        let i = l.index_of(s);
    }
}

/// A stone that can be taken, where there is a stone.
proof fn lemma_some_removable(m: u32) -> (t: int)
    requires
        on_board(m),
        count(m) > 0,
    ensures
        removable(m, t),
{
    broadcast use group_mask;
    lemma_count_zero(m);
    lemma_nonzero(m);
    if exists|p: int| #[trigger] member(m, p) && !in_mill(m, p) {
        choose|p: int| #[trigger] member(m, p) && !in_mill(m, p)
    } else {
        let t = choose|p: int| 0 <= p < 32 && member(m, p);
        assert(member(m, t));
        t
    }
}

/// A step that is allowed leads to some position, unless it closes a mill and
/// there is no stone to take.
pub proof fn lemma_step_leads_somewhere(pos: Position, from: int, to: int) -> (s: Position)
    requires
        pos.wf(),
        may_step(pos.w(), pos.b(), from, to),
        count(pos.b()) > 0 || !in_mill(relocate(pos.w(), from, to), to),
    ensures
        succs(pos).contains(s),
        s.b() == relocate(pos.w(), from, to),
{
    broadcast use group_mask;
    successors_are_the_legal_moves(pos);
    lemma_halves_on_board(pos);
    lemma_relocate(pos.w(), pos.b(), from, to);
    let m = relocate(pos.w(), from, to);
    if in_mill(m, to) {
        let t = lemma_some_removable(pos.b());
        let left = without(pos.b(), t);
        lemma_disjoint(m, pos.b());
        lemma_disjoint(left, m);
        lemma_on_board(pos.b());
        lemma_on_board(left);
        lemma_pack(left, m);
        let s = pack(left, m);
        assert(is_capture(pos, s, from, to, t));
        s
    } else {
        lemma_disjoint(m, pos.b());
        lemma_pack(pos.b(), m);
        let s = pack(pos.b(), m);
        assert(is_quiet_move(pos, s, from, to));
        s
    }
}

/// Of the stones of `opponent`, `s` lacks one that comes before the one that `t` lacks.
pub open spec fn takes_earlier(opponent: u32, s: Position, t: Position) -> bool {
    exists|c: int, d: int|
        {
            &&& c < d
            &&& #[trigger] removable(opponent, c)
            &&& #[trigger] removable(opponent, d)
            &&& s.w() == without(opponent, c)
            &&& t.w() == without(opponent, d)
        }
}

proof fn lemma_captures_in_order(opponent: u32, n: int, i: int, j: int) -> (r: (int, int))
    requires
        0 <= n <= 24,
        0 <= i < j < captures_below(opponent, n).len(),
    ensures
        r.0 < r.1 < n,
        removable(opponent, r.0),
        removable(opponent, r.1),
        captures_below(opponent, n)[i] == without(opponent, r.0),
        captures_below(opponent, n)[j] == without(opponent, r.1),
    decreases n,
{
    let (a, l) = (captures_below(opponent, n - 1), captures_below(opponent, n));
    if removable(opponent, n - 1) && j == a.len() {
        lemma_captures(opponent, n - 1);
        assert(l[i] == a[i]);
        assert(a.contains(a[i]));
        let t = choose|t: int| t < n - 1 && #[trigger] removable(opponent, t) && a[i] == without(opponent, t);
        (t, n - 1)
    } else {
        assert(l[i] == a[i] && l[j] == a[j]);
        lemma_captures_in_order(opponent, n - 1, i, j)
    }
}

proof fn lemma_arrivals_in_order(mover: u32, opponent: u32, dest: int, i: int, j: int)
    requires
        on_board(mover),
        on_board(opponent),
        disjoint(mover, opponent),
        0 <= i < j < arrivals(mover, opponent, dest).len(),
    ensures
        takes_earlier(opponent, arrivals(mover, opponent, dest)[i], arrivals(mover, opponent, dest)[j]),
{
    let (c, d) = lemma_captures_in_order(opponent, 24, i, j);
    let a = arrivals(mover, opponent, dest);
    lemma_captures_apart(mover, opponent, 24);
    let l = captures_below(opponent, 24);
    lemma_pack(l[i], mover);
    lemma_pack(l[j], mover);
    assert(a[i].w() == without(opponent, c) && a[j].w() == without(opponent, d));
}

/// `s` comes before `t` in the list of moves: by origin, then by destination, then by the
/// stone that is taken.
pub open spec fn moves_earlier(mover: u32, opponent: u32, s: Position, t: Position) -> bool {
    exists|f: int, x: int, g: int, y: int|
        {
            &&& #[trigger] step_leads(mover, opponent, f, x, s)
            &&& #[trigger] step_leads(mover, opponent, g, y, t)
            &&& f < g || f == g && (x < y || x == y && takes_earlier(opponent, s, t))
        }
}

proof fn lemma_steps_from_in_order(mover: u32, opponent: u32, from: int, n: int, i: int, j: int)
    requires
        on_board(mover),
        on_board(opponent),
        disjoint(mover, opponent),
        0 <= n <= 24,
        0 <= i < j < steps_from_below(mover, opponent, from, n).len(),
    ensures
        moves_earlier(
            mover,
            opponent,
            steps_from_below(mover, opponent, from, n)[i],
            steps_from_below(mover, opponent, from, n)[j],
        ),
    decreases n,
{
    let a = steps_from_below(mover, opponent, from, n - 1);
    let l = steps_from_below(mover, opponent, from, n);
    if may_step(mover, opponent, from, n - 1) && j >= a.len() {
        let m = relocate(mover, from, n - 1);
        let b = arrivals(m, opponent, n - 1);
        lemma_relocate(mover, opponent, from, n - 1);
        lemma_arrivals(m, opponent, n - 1);
        assert(l[j] == b[j - a.len()]);
        assert(b.contains(b[j - a.len()]));
        assert(step_leads(mover, opponent, from, n - 1, l[j]));
        if i < a.len() {
            lemma_steps_from(mover, opponent, from, n - 1);
            assert(l[i] == a[i]);
            assert(a.contains(a[i]));
            let x = choose|x: int| x < n - 1 && #[trigger] step_leads(mover, opponent, from, x, a[i]);
            assert(step_leads(mover, opponent, from, x, l[i]));
        } else {
            assert(l[i] == b[i - a.len()]);
            assert(b.contains(b[i - a.len()]));
            assert(step_leads(mover, opponent, from, n - 1, l[i]));
            lemma_arrivals_in_order(m, opponent, n - 1, i - a.len(), j - a.len());
        }
    } else {
        assert(l[i] == a[i] && l[j] == a[j]);
        lemma_steps_from_in_order(mover, opponent, from, n - 1, i, j);
    }
}

proof fn lemma_steps_in_order(mover: u32, opponent: u32, n: int, i: int, j: int)
    requires
        on_board(mover),
        on_board(opponent),
        disjoint(mover, opponent),
        0 <= n <= 24,
        0 <= i < j < steps_below(mover, opponent, n).len(),
    ensures
        moves_earlier(mover, opponent, steps_below(mover, opponent, n)[i], steps_below(mover, opponent, n)[j]),
    decreases n,
{
    let a = steps_below(mover, opponent, n - 1);
    let b = steps_from_below(mover, opponent, n - 1, 24);
    let l = steps_below(mover, opponent, n);
    if j < a.len() {
        assert(l[i] == a[i] && l[j] == a[j]);
        lemma_steps_in_order(mover, opponent, n - 1, i, j);
    } else if i >= a.len() {
        assert(l[i] == b[i - a.len()] && l[j] == b[j - a.len()]);
        lemma_steps_from_in_order(mover, opponent, n - 1, 24, i - a.len(), j - a.len());
    } else {
        assert(l[i] == a[i] && l[j] == b[j - a.len()]);
        lemma_steps_below(mover, opponent, n - 1);
        lemma_steps_from(mover, opponent, n - 1, 24);
        assert(a.contains(a[i]) && b.contains(b[j - a.len()]));
        let (f, x) = choose|f: int, x: int| f < n - 1 && #[trigger] step_leads(mover, opponent, f, x, a[i]);
        let y = choose|y: int| y < 24 && #[trigger] step_leads(mover, opponent, n - 1, y, l[j]);
        assert(step_leads(mover, opponent, f, x, l[i]));
    }
}

/// The moves are listed by the point that they go from, then by the point that they go
/// to, then by the stone that they take, each time the lowest first.
pub proof fn moves_are_listed_in_order(pos: Position, i: int, j: int)
    requires
        pos.wf(),
        0 <= i < j < succs(pos).len(),
    ensures
        moves_earlier(pos.w(), pos.b(), succs(pos)[i], succs(pos)[j]),
{
    lemma_halves_on_board(pos);
    lemma_steps_in_order(pos.w(), pos.b(), 24, i, j);
}

/// `s` comes before `t` in the list of placements: by point, then by the stone that is
/// taken.
pub open spec fn places_earlier(mover: u32, opponent: u32, s: Position, t: Position) -> bool {
    exists|x: int, y: int|
        {
            &&& #[trigger] place_leads(mover, opponent, x, s)
            &&& #[trigger] place_leads(mover, opponent, y, t)
            &&& x < y || x == y && takes_earlier(opponent, s, t)
        }
}

proof fn lemma_placements_in_order(mover: u32, opponent: u32, n: int, i: int, j: int)
    requires
        on_board(mover),
        on_board(opponent),
        disjoint(mover, opponent),
        0 <= n <= 24,
        0 <= i < j < placements_below(mover, opponent, n).len(),
    ensures
        places_earlier(mover, opponent, placements_below(mover, opponent, n)[i], placements_below(mover, opponent, n)[j]),
    decreases n,
{
    broadcast use group_mask;
    let a = placements_below(mover, opponent, n - 1);
    let l = placements_below(mover, opponent, n);
    if vacant(mover, opponent, n - 1) && j >= a.len() {
        let m = with(mover, n - 1);
        let b = arrivals(m, opponent, n - 1);
        lemma_on_board(mover);
        lemma_on_board(m);
        lemma_disjoint(mover, opponent);
        lemma_disjoint(m, opponent);
        lemma_arrivals(m, opponent, n - 1);
        assert(l[j] == b[j - a.len()]);
        assert(b.contains(b[j - a.len()]));
        assert(place_leads(mover, opponent, n - 1, l[j]));
        if i < a.len() {
            lemma_placements_below(mover, opponent, n - 1);
            assert(l[i] == a[i]);
            assert(a.contains(a[i]));
            let x = choose|x: int| x < n - 1 && #[trigger] place_leads(mover, opponent, x, a[i]);
            assert(place_leads(mover, opponent, x, l[i]));
        } else {
            assert(l[i] == b[i - a.len()]);
            assert(b.contains(b[i - a.len()]));
            assert(place_leads(mover, opponent, n - 1, l[i]));
            lemma_arrivals_in_order(m, opponent, n - 1, i - a.len(), j - a.len());
        }
    } else {
        assert(l[i] == a[i] && l[j] == a[j]);
        lemma_placements_in_order(mover, opponent, n - 1, i, j);
    }
}

/// The placements are listed by their point, then by the stone that they take, each time
/// the lowest first.
pub proof fn placements_are_listed_in_order(pos: Position, i: int, j: int)
    requires
        pos.wf(),
        0 <= i < j < placements(pos.w(), pos.b()).len(),
    ensures
        places_earlier(pos.w(), pos.b(), placements(pos.w(), pos.b())[i], placements(pos.w(), pos.b())[j]),
{
    lemma_halves_on_board(pos);
    lemma_placements_in_order(pos.w(), pos.b(), 24, i, j);
}

} // verus!
