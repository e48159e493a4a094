//! A game against the perfect-play engine. Everything inside uses the mover
//! and opponent perspective; the session remembers whose turn it is, and so
//! which of the two is White.

use vstd::prelude::*;

use crate::board::{lemma_adj, names, parse_point};
use crate::database::{decode, Database, DRAW};
use crate::game::Score;
use crate::index::SubspaceId;
use crate::mask::{
    contains, count, group_mask, lemma_count_zero, lemma_disjoint, lemma_nonzero, lemma_on_board, lowest,
    member, remove, without,
};
use crate::movegen::{
    is_capture, is_quiet_move, lemma_move_counts, lemma_relocate, lemma_step_leads_somewhere,
    placements_are_the_legal_placements, quiet_edge, relocate, successors, successors_are_the_legal_moves,
    succs,
};
use crate::opening::{
    all_covered, covered, every_placement_is_open, grown, hand_bound, handed_over, in_range, lemma_grown,
    lemma_next_states, next_states, placements_pass_the_turn, tt_sound, PlacementState, Tt,
};
use crate::opening_cache::storable;
use crate::play::{best_choice, best_movement_move, best_placement_move, first_best, Choice};
use crate::pos::{lemma_halves_on_board, lemma_pack, pack, Position};
use crate::rules::{
    can_be_taken, closes, generated_moves_are_the_legal_moves,
    generated_placements_are_the_legal_placements, has_a_way, opponent_after, rules_allow_move,
    rules_allow_placement, sides_move_while_they_can,
};
use crate::server::{complete_databases_cover, lemma_placement_counts, ready, Color};
use crate::text::{decimal, push_decimal, same_text, text_of};

verus! {

/// The side that the human plays, from its name in lower case.
pub fn human_side(name: &str) -> (r: Option<Color>)
    ensures
        r == (if name@ == "white"@ || name@ == "w"@ {
            Some(Color::White)
        } else if name@ == "black"@ || name@ == "b"@ {
            Some(Color::Black)
        } else {
            None
        }),
{
    if same_text(name, "white") || same_text(name, "w") {
        Some(Color::White)
    } else if same_text(name, "black") || same_text(name, "b") {
        Some(Color::Black)
    } else {
        None
    }
}

/// A stored value in words.
pub open spec fn value_text(code: u16) -> Seq<char> {
    match decode(code) {
        Score::Draw => "draw"@,
        Score::Loss(d) => "loss in "@ + decimal(d),
        Score::Win(d) => "win in "@ + decimal(d),
    }
}

pub fn describe_value(code: u16) -> (s: String)
    ensures
        s@ == value_text(code),
{
    if code == DRAW {
        text_of("draw")
    } else if code % 2 == 0 {
        let mut s: String = text_of("loss in ");
        push_decimal(&mut s, code as u64);
        s
    } else {
        let mut s: String = text_of("win in ");
        push_decimal(&mut s, code as u64);
        s
    }
}

/// Where a game stands: stones in hand are left to place, or they are moved.
#[derive(Clone, Copy, Debug, PartialEq, Eq, Structural)]
pub enum Stage {
    Placement(PlacementState),
    Movement(Position),
}

/// What a turn asks for.
#[derive(Clone, Copy, Debug, PartialEq, Eq, Structural)]
pub enum Turn {
    /// The mover has nowhere to place a stone.
    NoPlacement,
    /// The mover has fewer than three stones and loses.
    TooFew,
    /// The mover has no legal move and loses.
    NoMoves,
    HumanPlaces,
    HumanMoves,
    EnginePlaces,
    EngineMoves,
}

/// A game: where it stands, whose turn it is, and what the human plays.
#[derive(Clone, Copy, Debug)]
pub struct Session {
    pub stage: Stage,
    pub turn: Color,
    pub human: Color,
}

/// What a line that the human entered comes to.
#[derive(Debug)]
pub enum Entry<S> {
    /// It does not name what is asked for.
    Unreadable,
    /// It does not name enough points.
    Incomplete,
    /// The human has no stone on the first point.
    NoStone,
    /// No legal move does that.
    Illegal,
    /// One legal move does that.
    Play(S),
    /// A mill is closed: several do, one for each stone that can be captured.
    Capture(Vec<S>),
}

/// What several, one or no matching moves come to.
pub open spec fn entry_of<S>(l: Seq<S>, e: Entry<S>) -> bool {
    if l.len() == 0 {
        e is Illegal
    } else if l.len() == 1 {
        e == Entry::<S>::Play(l[0])
    } else {
        e matches Entry::Capture(v) && v@ == l
    }
}

/// The placements on `p`.
pub open spec fn placed_on(ps: PlacementState, p: int) -> Seq<PlacementState> {
    next_states(ps).filter(|s: PlacementState| member(s.pos.b(), p) && !member(ps.pos.w(), p))
}

/// The moves from `from` to `to`.
pub open spec fn moved_along(pos: Position, from: int, to: int) -> Seq<Position> {
    succs(pos).filter(|s: Position| member(s.b(), to) && !member(without(pos.w(), from), to) && !member(s.b(), from))
}

/// What a filter keeps is in the list, and passes.
proof fn lemma_kept<S>(l: Seq<S>, keep: spec_fn(S) -> bool, s: S)
    requires
        l.filter(keep).contains(s),
    ensures
        l.contains(s),
        keep(s),
    decreases l.len(),
{
    reveal(Seq::filter);
    if l.len() > 0 {
        let i = l.filter(keep).index_of(s);
        if keep(l.last()) && i == l.filter(keep).len() - 1 {
            assert(l[l.len() - 1] == s);
        } else {
            assert(l.drop_last().filter(keep)[i] == s);
            lemma_kept(l.drop_last(), keep, s);
            assert(l[l.drop_last().index_of(s)] == s);
        }
    }
}

/// A move that the human entered is legal, and goes from the one point to the
/// other.
pub proof fn entered_moves_go_along(pos: Position, from: int, to: int, s: Position)
    requires
        pos.wf(),
        member(pos.w(), from),
        moved_along(pos, from, to).contains(s),
    ensures
        succs(pos).contains(s),
        s.b() == relocate(pos.w(), from, to),
{
    broadcast use group_mask;
    let keep = |s: Position| member(s.b(), to) && !member(without(pos.w(), from), to) && !member(s.b(), from);
    lemma_kept(succs(pos), keep, s);
    successors_are_the_legal_moves(pos);
    if quiet_edge(pos, s) {
        let (f, t) = choose|f: int, t: int| is_quiet_move(pos, s, f, t);
        assert(member(s.b(), to) && !member(s.b(), from));
    } else {
        let (f, t, c) = choose|f: int, t: int, c: int| is_capture(pos, s, f, t, c);
        assert(member(s.b(), to) && !member(s.b(), from));
    }
}

/// What is in the list and passes is kept.
proof fn lemma_passes<S>(l: Seq<S>, keep: spec_fn(S) -> bool, s: S)
    requires
        l.contains(s),
        keep(s),
    ensures
        l.filter(keep).contains(s),
    decreases l.len(),
{
    reveal(Seq::filter);
    let i = l.index_of(s);
    let r = l.drop_last();
    if i == l.len() - 1 {
        assert(l.filter(keep)[r.filter(keep).len() as int] == s);
    } else {
        assert(r[i] == s);
        lemma_passes(r, keep, s);
        let j = r.filter(keep).index_of(s);
        assert(l.filter(keep)[j] == s);
    }
}

/// A list without duplicates stays so.
proof fn lemma_kept_once<S>(l: Seq<S>, keep: spec_fn(S) -> bool)
    requires
        l.no_duplicates(),
    ensures
        l.filter(keep).no_duplicates(),
    decreases l.len(),
{
    reveal(Seq::filter);
    if l.len() > 0 {
        let (r, f) = (l.drop_last(), l.filter(keep));
        assert forall|i: int, j: int| 0 <= i < r.len() && 0 <= j < r.len() && i != j implies r[i] != r[j] by {
            assert(l[i] == r[i] && l[j] == r[j]);
        }
        lemma_kept_once(r, keep);
        if keep(l.last()) {
            let g = r.filter(keep);
            assert forall|i: int, j: int| 0 <= i < f.len() && 0 <= j < f.len() && i != j implies f[i] != f[j] by {
                let k = if i < g.len() {
                    i
                } else {
                    j
                };
                assert(g.contains(g[k]));
                lemma_kept(r, keep, g[k]);
                let m = r.index_of(g[k]);
                assert(l[m] == g[k] && l[l.len() - 1] == l.last());
                if i < g.len() && j < g.len() {
                    assert(f[i] == g[i] && f[j] == g[j]);
                }
            }
        }
    }
}

/// What the human may answer to a line that names two points: every legal move
/// that takes the stone from the one to the other, along a line or in a jump, and
/// no other move; each once.
pub proof fn entered_moves_are_all_there(pos: Position, from: int, to: int, s: Position)
    requires
        pos.wf(),
        member(pos.w(), from),
    ensures
        moved_along(pos, from, to).contains(s) <==> s.wf() && rules_allow_move(pos, from, to, s),
        moved_along(pos, from, to).no_duplicates(),
{
    broadcast use group_mask;
    let keep = |s: Position| member(s.b(), to) && !member(without(pos.w(), from), to) && !member(s.b(), from);
    successors_are_the_legal_moves(pos);
    lemma_kept_once(succs(pos), keep);
    if moved_along(pos, from, to).contains(s) {
        entered_moves_go_along(pos, from, to, s);
        lemma_kept(succs(pos), keep, s);
        generated_moves_are_the_legal_moves(pos, s);
        let (f, t) = choose|f: int, t: int| #[trigger] rules_allow_move(pos, f, t, s);
        assert(member(pos.w(), from) && !member(s.b(), from));
        assert(member(s.b(), to) && !member(without(pos.w(), from), to));
        assert(f == from);
        assert(member(s.b(), to) <==> to == t || member(pos.w(), to) && to != f);
        assert(t == to);
    }
    if s.wf() && rules_allow_move(pos, from, to, s) {
        generated_moves_are_the_legal_moves(pos, s);
        assert(member(s.b(), to));
        assert(member(s.b(), from) <==> from == to || member(pos.w(), from) && from != from);
        assert(keep(s));
        lemma_passes(succs(pos), keep, s);
    }
}

/// A line that names two points is refused exactly when the stone has no way from
/// the one to the other, as long as the opponent has stones to lose.
pub proof fn moves_are_refused_where_there_is_no_way(pos: Position, from: int, to: int)
    requires
        pos.wf(),
        member(pos.w(), from),
        count(pos.b()) > 0,
    ensures
        moved_along(pos, from, to).len() == 0 <==> !has_a_way(pos, from, to),
{
    broadcast use group_mask;
    let l = moved_along(pos, from, to);
    if l.len() > 0 {
        assert(l.contains(l[0]));
        entered_moves_are_all_there(pos, from, to, l[0]);
    }
    if has_a_way(pos, from, to) {
        lemma_halves_on_board(pos);
        lemma_on_board(pos.w());
        lemma_adj(from, to);
        let s = lemma_step_leads_somewhere(pos, from, to);
        successors_are_the_legal_moves(pos);
        let keep = |s: Position| member(s.b(), to) && !member(without(pos.w(), from), to) && !member(s.b(), from);
        lemma_relocate(pos.w(), pos.b(), from, to);
        assert(keep(s));
        lemma_passes(succs(pos), keep, s);
        assert(l.contains(s));
        let i = l.index_of(s);
    }
}

/// What the human may answer to a line that names a point: every placement on
/// it that the rules allow, and no other; each once.
pub proof fn entered_placements_are_all_there(ps: PlacementState, p: int, t: PlacementState)
    requires
        ps.pos.wf(),
    ensures
        placed_on(ps, p).contains(t) <==> {
            &&& ps.mover_hand > 0
            &&& t.pos.wf()
            &&& rules_allow_placement(ps.pos, p, t.pos)
            &&& t.mover_hand == ps.opp_hand
            &&& t.opp_hand + 1 == ps.mover_hand
        },
        placed_on(ps, p).no_duplicates(),
{
    broadcast use group_mask;
    let keep = |s: PlacementState| member(s.pos.b(), p) && !member(ps.pos.w(), p);
    if ps.mover_hand > 0 {
        every_placement_is_open(ps, t.pos);
    }
    lemma_kept_once(next_states(ps), keep);
    if placed_on(ps, p).contains(t) {
        lemma_kept(next_states(ps), keep, t);
        placements_pass_the_turn(ps, t);
        placements_are_the_legal_placements(ps.pos);
        assert(t.pos.wf());
        generated_placements_are_the_legal_placements(ps.pos, t.pos);
        let to = choose|to: int| #[trigger] rules_allow_placement(ps.pos, to, t.pos);
        assert(member(t.pos.b(), p) <==> p == to || member(ps.pos.w(), p));
        assert(to == p);
    }
    if ps.mover_hand > 0 && t.pos.wf() && rules_allow_placement(ps.pos, p, t.pos) && t.mover_hand == ps.opp_hand
        && t.opp_hand + 1 == ps.mover_hand {
        generated_placements_are_the_legal_placements(ps.pos, t.pos);
        let u = choose|u: PlacementState| #[trigger] next_states(ps).contains(u) && u.pos == t.pos;
        placements_pass_the_turn(ps, u);
        assert(u == t);
        assert(member(t.pos.b(), p));
        assert(keep(t));
        lemma_passes(next_states(ps), keep, t);
    }
}

impl Session {
    /// What holds throughout a game: a proper board, at most nine stones a
    /// side, and placements in turn, White first.
    pub open spec fn wf(&self) -> bool {
        match self.stage {
            Stage::Placement(ps) => {
                &&& ps.pos.wf()
                &&& ps.mover_stones() <= 9
                &&& ps.opp_stones() <= 9
                &&& ps.mover_hand > 0
                &&& match self.turn {
                    Color::White => ps.mover_hand == ps.opp_hand,
                    Color::Black => ps.mover_hand == ps.opp_hand + 1,
                }
            },
            Stage::Movement(pos) => {
                &&& pos.wf()
                &&& count(pos.w()) <= 9
                &&& count(pos.b()) <= 9
            },
        }
    }

    /// A new game.
    pub fn new(human: Color) -> (g: Session)
        ensures
            g.wf(),
            g.stage == Stage::Placement(PlacementState { pos: pack(0, 0), mover_hand: 9, opp_hand: 9 }),
            g.turn == Color::White,
            g.human == human,
    {
        let ps = PlacementState::initial();
        proof {
            broadcast use group_mask;
            lemma_count_zero(0);
        }
        Session { stage: Stage::Placement(ps), turn: Color::White, human }
    }

    /// The position on the board, for the side to move.
    pub open spec fn position(&self) -> Position {
        match self.stage {
            Stage::Placement(ps) => ps.pos,
            Stage::Movement(pos) => pos,
        }
    }

    /// The board in physical colors.
    pub fn board(&self) -> (p: Position)
        requires
            self.wf(),
        ensures
            p == match self.turn {
                Color::White => self.position(),
                Color::Black => pack(self.position().b(), self.position().w()),
            },
            p.wf(),
    {
        let pos: Position = match self.stage {
            Stage::Placement(ps) => ps.pos,
            Stage::Movement(pos) => pos,
        };
        match self.turn {
            Color::White => pos,
            Color::Black => pos.swap_colors(),
        }
    }

    /// The stones that White and Black have in hand, while stones are placed.
    pub fn hands(&self) -> (h: Option<(u8, u8)>)
        ensures
            h == match self.stage {
                Stage::Placement(ps) => match self.turn {
                    Color::White => Some((ps.mover_hand, ps.opp_hand)),
                    Color::Black => Some((ps.opp_hand, ps.mover_hand)),
                },
                Stage::Movement(_) => None,
            },
    {
        match self.stage {
            Stage::Placement(ps) => match self.turn {
                Color::White => Some((ps.mover_hand, ps.opp_hand)),
                Color::Black => Some((ps.opp_hand, ps.mover_hand)),
            },
            Stage::Movement(_) => None,
        }
    }

    /// What the turn asks for.
    pub open spec fn asks(&self) -> Turn {
        match self.stage {
            Stage::Placement(ps) => if next_states(ps).len() == 0 {
                Turn::NoPlacement
            } else if self.turn == self.human {
                Turn::HumanPlaces
            } else {
                Turn::EnginePlaces
            },
            Stage::Movement(pos) => if count(pos.w()) < 3 {
                Turn::TooFew
            } else if succs(pos).len() == 0 {
                Turn::NoMoves
            } else if self.turn == self.human {
                Turn::HumanMoves
            } else {
                Turn::EngineMoves
            },
        }
    }

    pub fn next_turn(&self) -> (t: Turn)
        requires
            self.wf(),
        ensures
            t == self.asks(),
    {
        match self.stage {
            Stage::Placement(ps) => {
                let n: usize = crate::opening::successors(&ps).len();
                if n == 0 {
                    Turn::NoPlacement
                } else if self.turn == self.human {
                    Turn::HumanPlaces
                } else {
                    Turn::EnginePlaces
                }
            },
            Stage::Movement(pos) => {
                if pos.white_count() < 3 {
                    return Turn::TooFew;
                }
                let n: usize = successors(pos).len();
                if n == 0 {
                    Turn::NoMoves
                } else if self.turn == self.human {
                    Turn::HumanMoves
                } else {
                    Turn::EngineMoves
                }
            },
        }
    }
}

/// What the human's placement on the point that the text names comes to.
pub fn enter_placement(ps: &PlacementState, text: &str) -> (e: Entry<PlacementState>)
    requires
        ps.pos.wf(),
    ensures
        if exists|p: int| names(text@, p) {
            exists|p: int| #[trigger] names(text@, p) && entry_of(placed_on(*ps, p), e)
        } else {
            e is Unreadable
        },
{
    let p: usize = match parse_point(text) {
        Some(p) => p,
        None => {
            return Entry::Unreadable;
        },
    };
    let next: Vec<PlacementState> = crate::opening::successors(ps);
    let ghost keep = |s: PlacementState| member(s.pos.b(), p as int) && !member(ps.pos.w(), p as int);
    let mut found: Vec<PlacementState> = Vec::new();
    let mut i: usize = 0;
    proof {
        reveal(Seq::filter);
    }
    while i < next.len()
        invariant
            i <= next.len(),
            p < 24,
            keep == (|s: PlacementState| member(s.pos.b(), p as int) && !member(ps.pos.w(), p as int)),
            found@ == next@.take(i as int).filter(keep),
        decreases next.len() - i,
    {
        let s: PlacementState = next[i];
        proof {
            reveal(Seq::filter);
            assert(next@.take(i + 1).drop_last() =~= next@.take(i as int));
            assert(next@.take(i + 1).last() == s);
        }
        if contains(s.pos.black(), p) && !contains(ps.pos.white(), p) {
            found.push(s);
        }
        i = i + 1;
    }
    assert(next@.take(i as int) =~= next@);
    assert(found@ == placed_on(*ps, p as int));
    if found.len() == 0 {
        Entry::Illegal
    } else if found.len() == 1 {
        Entry::Play(found[0])
    } else {
        Entry::Capture(found)
    }
}

/// The texts name the points `from` and `to`.
pub open spec fn name_both(from_text: Seq<char>, to_text: Seq<char>, from: int, to: int) -> bool {
    names(from_text, from) && names(to_text, to)
}

/// What the human's move between the points that the texts name comes to.
pub fn enter_move(pos: Position, from_text: Option<&str>, to_text: Option<&str>) -> (e: Entry<Position>)
    requires
        pos.wf(),
    ensures
        match (from_text, to_text) {
            (Some(f), Some(t)) => if exists|from: int, to: int| name_both(f@, t@, from, to) {
                exists|from: int, to: int| #[trigger]
                    name_both(f@, t@, from, to) && if !member(pos.w(), from) {
                        e is NoStone
                    } else {
                        entry_of(moved_along(pos, from, to), e)
                    }
            } else {
                e is Unreadable
            },
            _ => e is Incomplete,
        },
{
    let (f, t) = match (from_text, to_text) {
        (Some(f), Some(t)) => (f, t),
        _ => {
            return Entry::Incomplete;
        },
    };
    let (from, to): (usize, usize) = match (parse_point(f), parse_point(t)) {
        (Some(from), Some(to)) => (from, to),
        _ => {
            return Entry::Unreadable;
        },
    };
    assert(name_both(f@, t@, from as int, to as int));
    if !contains(pos.white(), from) {
        return Entry::NoStone;
    }
    let next: Vec<Position> = successors(pos);
    let rest: u32 = remove(pos.white(), from);
    let ghost keep = |s: Position| member(s.b(), to as int) && !member(without(pos.w(), from as int), to as int) && !member(s.b(), from as int);
    let mut found: Vec<Position> = Vec::new();
    let mut i: usize = 0;
    proof {
        reveal(Seq::filter);
    }
    while i < next.len()
        invariant
            i <= next.len(),
            from < 24,
            to < 24,
            rest == without(pos.w(), from as int),
            keep == (|s: Position| member(s.b(), to as int) && !member(without(pos.w(), from as int), to as int) && !member(s.b(), from as int)),
            found@ == next@.take(i as int).filter(keep),
        decreases next.len() - i,
    {
        let s: Position = next[i];
        proof {
            reveal(Seq::filter);
            assert(next@.take(i + 1).drop_last() =~= next@.take(i as int));
            assert(next@.take(i + 1).last() == s);
        }
        if contains(s.black(), to) && !contains(rest, to) && !contains(s.black(), from) {
            found.push(s);
        }
        i = i + 1;
    }
    assert(next@.take(i as int) =~= next@);
    assert(found@ == moved_along(pos, from as int, to as int));
    if found.len() == 0 {
        Entry::Illegal
    } else if found.len() == 1 {
        Entry::Play(found[0])
    } else {
        Entry::Capture(found)
    }
}

/// The stone of the opponent that is gone after a move: the lowest, if any.
pub fn taken(before: Position, after: Position) -> (r: Option<usize>)
    ensures
        match r {
            Some(p) => {
                &&& member(before.b(), p as int) && !member(after.w(), p as int)
                &&& forall|q: int| q < p && #[trigger] member(before.b(), q) ==> member(after.w(), q)
            },
            None => forall|q: int| #[trigger] member(before.b(), q) ==> member(after.w(), q),
        },
{
    let gone: u32 = before.black() & !after.white();
    proof {
        broadcast use group_mask;
        lemma_nonzero(gone);
    }
    if gone == 0 {
        proof {
            assert forall|q: int| #[trigger] member(before.b(), q) implies member(after.w(), q) by {
                assert(!member(gone, q));
            }
        }
        None
    } else {
        let p: usize = lowest(gone);
        proof {
            assert forall|q: int| q < p && #[trigger] member(before.b(), q) implies member(after.w(), q) by {
                assert(!member(gone, q));
            }
        }
        Some(p)
    }
}

/// The item that a number between 1 and `n` stands for.
pub fn choice(number: usize, n: usize) -> (r: Option<usize>)
    ensures
        r == (if 1 <= number <= n {
            Some((number - 1) as usize)
        } else {
            None
        }),
{
    if 1 <= number && number <= n {
        Some(number - 1)
    } else {
        None
    }
}

/// The engine can search a placement: the search ends where the movement phase
/// is solved. The one state left out is that of a mover who places the last
/// stone of all with fewer than three stones.
pub open spec fn can_search(ps: PlacementState) -> bool {
    ps.mover_stones() >= 3 || ps.in_hand() > 1
}

/// A complete database has what the successors of a placement state need.
proof fn lemma_search_covered(db: &Database, ps: PlacementState, n: int)
    requires
        ready(db, true),
        ps.pos.wf(),
        ps.mover_stones() <= 9,
        ps.opp_stones() <= 9,
        can_search(ps),
        0 <= n <= next_states(ps).len(),
    ensures
        all_covered(db, ps.in_hand(), next_states(ps).take(n)),
    decreases n,
{
    if n > 0 {
        let l = next_states(ps);
        lemma_search_covered(db, ps, n - 1);
        assert(l.take(n).drop_last() =~= l.take(n - 1));
        let t = l[n - 1];
        lemma_next_states(ps);
        lemma_placement_counts(ps.pos, t.pos);
        if ps.mover_stones() >= 3 {
            complete_databases_cover(db, t);
        } else if t.mover_stones() >= 3 {
            lemma_lost_covered(db, t, next_states(t).len() as int);
            assert(next_states(t).take(next_states(t).len() as int) =~= next_states(t));
        }
    }
}

/// Where the opponent has too few stones, every successor is over.
proof fn lemma_lost_covered(db: &Database, t: PlacementState, n: int)
    requires
        t.pos.wf(),
        t.opp_stones() < 3,
        0 <= n <= next_states(t).len(),
    ensures
        all_covered(db, t.in_hand(), next_states(t).take(n)),
    decreases n,
{
    if n > 0 {
        let l = next_states(t);
        lemma_lost_covered(db, t, n - 1);
        assert(l.take(n).drop_last() =~= l.take(n - 1));
        lemma_next_states(t);
        lemma_placement_counts(t.pos, l[n - 1].pos);
        assert(l[n - 1] == handed_over(t, l[n - 1].pos));
        assert(l[n - 1].mover_stones() < 3);
        assert(covered(db, l[n - 1]));
    }
}

/// The engine's placement: the first of the best, if what the table says is
/// true.
pub fn engine_placement(ps: &PlacementState, db: &Database, tt: &mut Tt) -> (r: Option<PlacementState>)
    requires
        ready(db, true),
        ps.pos.wf(),
        ps.mover_stones() <= 9,
        ps.opp_stones() <= 9,
        can_search(*ps),
        in_range(old(tt)@),
    ensures
        match r {
            Some(s) => {
                &&& next_states(*ps).contains(s)
                &&& tt_sound(db, old(tt)@) ==> exists|i: int| #[trigger]
                    first_best(db, next_states(*ps), i) && s == next_states(*ps)[i]
            },
            None => next_states(*ps).len() == 0,
        },
        tt_sound(db, old(tt)@) ==> tt_sound(db, final(tt)@),
        in_range(final(tt)@),
        grown(old(tt)@, final(tt)@, 9),
        storable(old(tt)@) ==> storable(final(tt)@),
{
    proof {
        lemma_search_covered(db, *ps, next_states(*ps).len() as int);
        assert(next_states(*ps).take(next_states(*ps).len() as int) =~= next_states(*ps));
    }
    let ghost start = tt@;
    let r = best_placement_move(ps, db, tt);
    proof {
        lemma_grown(start, start, tt@, hand_bound(*ps), 9);
    }
    r
}

/// The engine's move: the fastest win, else a draw, else the slowest loss.
pub fn engine_move(pos: Position, db: &Database) -> (r: Option<Choice<Position>>)
    requires
        ready(db, true),
        pos.wf(),
        3 <= count(pos.w()) <= 9,
        count(pos.b()) <= 9,
    ensures
        match r {
            Some(c) => succs(pos).len() > 0 && best_choice(db, succs(pos), c.successor, c.value_code as int),
            None => succs(pos).len() == 0,
        },
{
    proof {
        successors_are_the_legal_moves(pos);
        assert forall|s: Position| #[trigger] succs(pos).contains(s) && count(s.w()) >= 3 implies db.covers(
            count(s.w()),
            count(s.b()),
        ) by {
            lemma_move_counts(pos, s);
            let sub = SubspaceId { w: count(s.w()) as u8, b: count(s.b()) as u8 };
            assert(sub.wf());
        }
    }
    best_movement_move(pos, db)
}

impl Session {
    /// A stone is placed: the turn passes, and once no stone is left in hand
    /// the movement phase begins.
    pub fn place(&mut self, chosen: PlacementState)
        requires
            old(self).wf(),
            old(self).stage matches Stage::Placement(ps) && next_states(ps).contains(chosen),
        ensures
            final(self).wf(),
            final(self).stage == (if chosen.in_hand() == 0 {
                Stage::Movement(chosen.pos)
            } else {
                Stage::Placement(chosen)
            }),
            old(self).stage matches Stage::Placement(ps) ==> chosen.in_hand() + 1 == ps.in_hand(),
            final(self).turn == old(self).turn.opposite(),
            final(self).human == old(self).human,
    {
        proof {
            let ps = self.stage->Placement_0;
            lemma_next_states(ps);
            let i = next_states(ps).index_of(chosen);
            assert(next_states(ps)[i] == chosen);
            lemma_placement_counts(ps.pos, chosen.pos);
        }
        self.turn = self.turn.other();
        self.stage = if chosen.placement_done() {
            Stage::Movement(chosen.pos)
        } else {
            Stage::Placement(chosen)
        };
    }

    /// A stone is moved, and the turn passes.
    pub fn make_move(&mut self, next: Position)
        requires
            old(self).wf(),
            old(self).stage matches Stage::Movement(pos) && succs(pos).contains(next),
        ensures
            final(self).wf(),
            final(self).stage == Stage::Movement(next),
            final(self).turn == old(self).turn.opposite(),
            final(self).human == old(self).human,
    {
        proof {
            let pos = self.stage->Movement_0;
            successors_are_the_legal_moves(pos);
            lemma_move_counts(pos, next);
        }
        self.turn = self.turn.other();
        self.stage = Stage::Movement(next);
    }
}

/// The game asks for a move as long as the rules give one, of the player whose turn it
/// is, and ends as they say: in the movement phase with fewer than three stones, or
/// with no stone that has a way.
pub proof fn turns_are_asked_by_the_rules(g: Session, pos: Position)
    requires
        g.wf(),
        g.stage == Stage::Movement(pos),
        count(pos.b()) > 0,
    ensures
        g.asks() == if count(pos.w()) < 3 {
            Turn::TooFew
        } else if forall|from: int, to: int| !#[trigger] has_a_way(pos, from, to) {
            Turn::NoMoves
        } else if g.turn == g.human {
            Turn::HumanMoves
        } else {
            Turn::EngineMoves
        },
{
    sides_move_while_they_can(pos);
}

/// While stones are placed, the player whose turn it is is asked to place one.
pub proof fn placements_are_asked_of_the_player(g: Session, ps: PlacementState)
    requires
        g.wf(),
        g.stage == Stage::Placement(ps),
        next_states(ps).len() > 0,
    ensures
        g.turn == g.human ==> g.asks() == Turn::HumanPlaces,
        g.turn != g.human ==> g.asks() == Turn::EnginePlaces,
{
}

/// Values in words tell codes apart: what is said of a code tells whether it is a
/// draw, a win or a loss.
pub proof fn words_tell_outcomes(code: u16)
    ensures
        code == 0xffff ==> value_text(code) == "draw"@,
        code != 0xffff && code % 2 == 1 ==> value_text(code) == "win in "@ + decimal(code as nat),
        code != 0xffff && code % 2 == 0 ==> value_text(code) == "loss in "@ + decimal(code as nat),
{
}

/// The colors on the board change only by the move that was made: the color that moves
/// keeps its number of stones, and the other loses one at most.
pub proof fn boards_keep_their_colors(before: Session, after: Session, pos: Position, next: Position)
    requires
        before.wf(),
        before.stage == Stage::Movement(pos),
        succs(pos).contains(next),
        after.stage == Stage::Movement(next),
        after.turn == before.turn.opposite(),
    ensures
        ({
            let colors = |g: Session, p: Position| match g.turn {
                Color::White => (p.w(), p.b()),
                Color::Black => (p.b(), p.w()),
            };
            let (x, y) = (colors(before, pos), colors(after, next));
            match before.turn {
                Color::White => count(y.0) == count(x.0) && count(x.1) - 1 <= count(y.1) <= count(x.1),
                Color::Black => count(y.1) == count(x.1) && count(x.0) - 1 <= count(y.0) <= count(x.0),
            }
        }),
{
    successors_are_the_legal_moves(pos);
    lemma_move_counts(pos, next);
}

/// What a line comes to, by the moves that match it: none is illegal, one is played, and
/// more are offered, all of them.
pub proof fn lines_come_to_what_matches(l: Seq<Position>, e: Entry<Position>)
    requires
        entry_of(l, e),
    ensures
        e is Illegal <==> l.len() == 0,
        e matches Entry::Play(s) ==> l == seq![s],
        e matches Entry::Capture(v) ==> v@ == l && l.len() > 1,
        !(e is Unreadable) && !(e is Incomplete) && !(e is NoStone),
{
    if let Entry::Play(s) = e {
        assert(l =~= seq![s]);
    }
}

/// A move that closes a mill offers one choice for each stone that can be taken; any other
/// is played as it is.
pub proof fn mills_offer_the_stones_to_take(pos: Position, from: int, to: int, t: int)
    requires
        pos.wf(),
        has_a_way(pos, from, to),
        closes(relocate(pos.w(), from, to), to),
        can_be_taken(pos.b(), t),
    ensures
        exists|s: Position| #[trigger] moved_along(pos, from, to).contains(s) && s.w() == without(pos.b(), t),
{
    broadcast use group_mask;
    lemma_halves_on_board(pos);
    lemma_on_board(pos.w());
    lemma_on_board(pos.b());
    lemma_adj(from, to);
    lemma_relocate(pos.w(), pos.b(), from, to);
    let m = relocate(pos.w(), from, to);
    let left = without(pos.b(), t);
    lemma_on_board(left);
    lemma_disjoint(m, pos.b());
    lemma_disjoint(left, m);
    lemma_pack(left, m);
    let s = pack(left, m);
    assert(s.wf() && s.b() == m && s.w() == left);
    assert(opponent_after(pos, s.b(), to, s)) by {
        assert(can_be_taken(pos.b(), t));
    }
    assert(rules_allow_move(pos, from, to, s));
    entered_moves_are_all_there(pos, from, to, s);
}

} // verus!
