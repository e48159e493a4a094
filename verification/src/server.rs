//! Analysis of game states in physical colors.
//!
//! A state names the two colors and whose turn it is; a `Position` names the
//! mover and the opponent. Only `to_internal` and `to_state_json` go from one to
//! the other: everything else here works in one of the two alone.

use vstd::prelude::*;

use crate::board::{in_mill, name_of, point_name};
use crate::database::{decode, Database, DRAW};
use crate::game::Score;
use crate::index::{all_subspaces, playable, stones, SubspaceId};
use crate::mask::{
    contains, count, disjoint, group_mask, insert, lemma_count_on_board, lemma_count_with,
    lemma_count_without, lemma_count_zero, lemma_disjoint, lemma_ext, lemma_nonzero, lemma_on_board,
    lemma_points_below, lowest, member, on_board, points, points_below, with, without,
};
use crate::movegen::{
    is_capture, is_quiet_move, lemma_move_counts, place_leads, placements,
    placements_are_the_legal_placements, quiet_edge, relocate, removable, successors,
    successors_are_the_legal_moves, succs,
};
use crate::opening::{
    all_covered, covered, grown, hand_bound, in_range, lemma_all_covered, lemma_grown, lemma_next_states,
    lemma_worth_range, next_states, searches_keep_tables_storable, solve, tt_sound, worth, PlacementState,
    Tt, TtKey, TtValue, Value,
};
use crate::opening_cache::storable;
use crate::play::{
    best_choice, best_movement_move, best_placement_move, first_best, first_draw, first_loss, first_win,
    replies_covered, reply_code, some_reply,
};
use crate::pos::{
    as_ints, bits, lemma_halves_on_board, lemma_pack, lemma_unpack, may_step, pack, vacant, Position,
};
use crate::text::{decimal, push_decimal, push_text, same_text, text_of};
use crate::truth::{game_value, game_values_are_consistent};

verus! {

/// A player.
#[derive(Clone, Copy, PartialEq, Eq, Debug, Structural)]
pub enum Color {
    White,
    Black,
}

impl Color {
    pub open spec fn opposite(self) -> Color {
        match self {
            Color::White => Color::Black,
            Color::Black => Color::White,
        }
    }

    pub fn other(self) -> (c: Color)
        ensures
            c == self.opposite(),
    {
        match self {
            Color::White => Color::Black,
            Color::Black => Color::White,
        }
    }
}

/// A game state in physical colors. Points are numbered from 0 to 23.
#[derive(Clone, Debug)]
pub struct StateJson {
    pub white: Vec<u8>,
    pub black: Vec<u8>,
    pub turn: Color,
    pub white_hand: u8,
    pub black_hand: u8,
}

/// A state to analyze.
#[derive(Debug)]
pub struct AnalyzeRequest {
    pub state: StateJson,
    /// Give every move its value, and the state too.
    pub evaluate: bool,
    /// Choose a move in the placement phase even without `evaluate`. That
    /// takes a search, so it is not done unasked; in the movement phase a move
    /// is always chosen.
    pub engine: bool,
}

#[derive(Clone, Copy, PartialEq, Eq, PartialOrd, Ord, Debug, Structural)]
pub enum Outcome {
    Win,
    Draw,
    Loss,
}

/// An outcome, with its depth where it is known.
#[derive(Clone, Copy, PartialEq, Eq, Debug)]
pub struct ValueJson {
    pub outcome: Outcome,
    pub plies: Option<u16>,
}

/// A move, and the state it leads to. A placement has no `from`.
#[derive(Debug)]
pub struct MoveJson {
    pub from: Option<u8>,
    pub to: u8,
    pub capture: Option<u8>,
    pub notation: String,
    pub value: Option<ValueJson>,
    pub result: StateJson,
}

/// How the game ended: the reason is `fewerThanThree` or `noMoves`.
#[derive(Debug)]
pub struct ResultJson {
    pub winner: Color,
    pub reason: &'static str,
}

/// The analysis of a state: the phase is `placement` or `movement`.
#[derive(Debug)]
pub struct AnalyzeResponse {
    pub phase: &'static str,
    pub result: Option<ResultJson>,
    pub value: Option<ValueJson>,
    pub moves: Vec<MoveJson>,
    pub engine_move: Option<usize>,
}

/// A refused request: a status code and what is wrong.
#[derive(Debug)]
pub struct ApiError {
    pub status: u16,
    pub message: String,
}

fn bad(message: String) -> (e: ApiError)
    ensures
        e.status == 400,
        e.message@ == message@,
{
    ApiError { status: 400, message }
}

fn conflict(message: String) -> (e: ApiError)
    ensures
        e.status == 409,
        e.message@ == message@,
{
    ApiError { status: 409, message }
}

/// What is wrong with a list of points of one color, if anything: the first
/// point that is no point or was there before.
pub open spec fn side_fault(points: Seq<u8>, color: Seq<char>) -> Option<Seq<char>>
    decreases points.len(),
{
    if points.len() == 0 {
        None
    } else {
        let (rest, p) = (points.drop_last(), points.last());
        match side_fault(rest, color) {
            Some(m) => Some(m),
            None => if p >= 24 {
                Some("point index "@ + decimal(p as nat) + " out of range 0..24"@)
            } else if rest.contains(p) {
                Some("duplicate "@ + color + " point "@ + decimal(p as nat))
            } else {
                None
            },
        }
    }
}

/// The stones of both colors in hand agree with placing in turn, White first.
pub open spec fn alternates(s: StateJson) -> bool {
    match s.turn {
        Color::White => s.white_hand == s.black_hand,
        Color::Black => s.black_hand == s.white_hand + 1,
    }
}

/// Some stones are still in hand.
pub open spec fn placing(s: StateJson) -> bool {
    s.white_hand > 0 || s.black_hand > 0
}

/// What is wrong with a state, if anything.
pub open spec fn fault(s: StateJson) -> Option<Seq<char>> {
    if side_fault(s.white@, "white"@) is Some {
        side_fault(s.white@, "white"@)
    } else if side_fault(s.black@, "black"@) is Some {
        side_fault(s.black@, "black"@)
    } else if exists|p: u8| #[trigger] s.white@.contains(p) && s.black@.contains(p) {
        Some("white and black occupy the same point"@)
    } else if s.white_hand > 9 || s.black_hand > 9 {
        Some("hand count exceeds 9"@)
    } else if s.white@.len() + s.white_hand > 9 {
        Some("white has more than 9 total stones (board + hand)"@)
    } else if s.black@.len() + s.black_hand > 9 {
        Some("black has more than 9 total stones (board + hand)"@)
    } else if placing(s) && !alternates(s) {
        Some("hand counts are inconsistent with strict placement alternation"@)
    } else {
        None
    }
}

/// The set of the points of a list.
pub open spec fn mask_of(points: Seq<u8>) -> u32
    decreases points.len(),
{
    if points.len() == 0 {
        0
    } else {
        with(mask_of(points.drop_last()), points.last() as int)
    }
}

pub proof fn lemma_mask_of(points: Seq<u8>, color: Seq<char>)
    requires
        side_fault(points, color) is None,
    ensures
        on_board(mask_of(points)),
        forall|p: int| 0 <= p < 24 ==> (#[trigger] member(mask_of(points), p) <==> points.contains(p as u8)),
        count(mask_of(points)) == points.len(),
    decreases points.len(),
{
    broadcast use group_mask;
    let m = mask_of(points);
    if points.len() == 0 {
        lemma_on_board(0);
        lemma_count_zero(0);
    } else {
        let (rest, q) = (points.drop_last(), points.last());
        lemma_mask_of(rest, color);
        lemma_on_board(mask_of(rest));
        lemma_on_board(m);
        lemma_count_with(mask_of(rest), q as int);
        assert(points =~= rest.push(q));
        assert forall|p: int| 0 <= p < 24 implies (#[trigger] member(m, p) <==> points.contains(p as u8)) by {
            if rest.contains(p as u8) {
                let i = rest.index_of(p as u8);
                assert(points[i] == p as u8);
            }
            if points.contains(p as u8) && p != q {
                let i = points.index_of(p as u8);
                assert(rest[i] == p as u8);
            }
            assert(points[points.len() - 1] == q);
        }
    }
}

/// What is wrong with the first `n` points of a list stays wrong.
proof fn lemma_side_fault_take(points: Seq<u8>, color: Seq<char>, n: int)
    requires
        0 <= n <= points.len(),
        side_fault(points.take(n), color) is Some,
    ensures
        side_fault(points, color) == side_fault(points.take(n), color),
    decreases points.len(),
{
    if n < points.len() {
        assert(points.drop_last().take(n) =~= points.take(n));
        lemma_side_fault_take(points.drop_last(), color, n);
    } else {
        assert(points.take(n) =~= points);
    }
}

/// The set of the points of one color, each checked.
fn side_bits(points: &Vec<u8>, color: &str) -> (r: Result<u32, ApiError>)
    ensures
        match r {
            Ok(m) => side_fault(points@, color@) is None && m == mask_of(points@),
            Err(e) => e.status == 400 && side_fault(points@, color@) == Some(e.message@),
        },
{
    let mut m: u32 = 0;
    let mut i: usize = 0;
    while i < points.len()
        invariant
            i <= points.len(),
            side_fault(points@.take(i as int), color@) is None,
            m == mask_of(points@.take(i as int)),
        decreases points.len() - i,
    {
        let p: u8 = points[i];
        proof {
            assert(points@.take(i + 1).drop_last() =~= points@.take(i as int));
            lemma_mask_of(points@.take(i as int), color@);
        }
        if p >= 24 {
            let mut text: String = String::new();
            push_text(&mut text, "point index ");
            push_decimal(&mut text, p as u64);
            push_text(&mut text, " out of range 0..24");
            proof {
                assert(text@ =~= "point index "@ + decimal(p as nat) + " out of range 0..24"@);
                lemma_side_fault_take(points@, color@, i + 1);
            }
            return Err(bad(text));
        }
        if contains(m, p as usize) {
            let mut text: String = String::new();
            push_text(&mut text, "duplicate ");
            push_text(&mut text, color);
            push_text(&mut text, " point ");
            push_decimal(&mut text, p as u64);
            proof {
                assert(text@ =~= "duplicate "@ + color@ + " point "@ + decimal(p as nat));
                lemma_side_fault_take(points@, color@, i + 1);
            }
            return Err(bad(text));
        }
        m = insert(m, p as usize);
        i = i + 1;
    }
    assert(points@.take(i as int) =~= points@);
    Ok(m)
}

/// Checks a state and gives the point sets of White and Black.
pub fn validate(state: &StateJson) -> (r: Result<(u32, u32), ApiError>)
    ensures
        match r {
            Ok((w, b)) => fault(*state) is None && w == mask_of(state.white@) && b == mask_of(state.black@),
            Err(e) => e.status == 400 && fault(*state) == Some(e.message@),
        },
{
    let white_bits: u32 = match side_bits(&state.white, "white") {
        Ok(m) => m,
        Err(e) => {
            return Err(e);
        },
    };
    let black_bits: u32 = match side_bits(&state.black, "black") {
        Ok(m) => m,
        Err(e) => {
            return Err(e);
        },
    };
    proof {
        broadcast use group_mask;
        lemma_mask_of(state.white@, "white"@);
        lemma_mask_of(state.black@, "black"@);
        lemma_on_board(white_bits);
        lemma_on_board(black_bits);
        lemma_count_on_board(white_bits);
        lemma_count_on_board(black_bits);
        lemma_overlap(state.white@, state.black@);
    }
    if white_bits & black_bits != 0 {
        return Err(bad(text_of("white and black occupy the same point")));
    }
    if state.white_hand > 9 || state.black_hand > 9 {
        return Err(bad(text_of("hand count exceeds 9")));
    }
    if state.white.len() + state.white_hand as usize > 9 {
        return Err(bad(text_of("white has more than 9 total stones (board + hand)")));
    }
    if state.black.len() + state.black_hand as usize > 9 {
        return Err(bad(text_of("black has more than 9 total stones (board + hand)")));
    }
    if state.white_hand > 0 || state.black_hand > 0 {
        let ok: bool = match state.turn {
            Color::White => state.white_hand == state.black_hand,
            Color::Black => state.black_hand == state.white_hand + 1,
        };
        if !ok {
            return Err(bad(text_of("hand counts are inconsistent with strict placement alternation")));
        }
    }
    Ok((white_bits, black_bits))
}

/// Two colors share a point if and only if their sets do.
proof fn lemma_overlap(white: Seq<u8>, black: Seq<u8>)
    requires
        side_fault(white, "white"@) is None,
        side_fault(black, "black"@) is None,
    ensures
        (exists|p: u8| #[trigger] white.contains(p) && black.contains(p)) <==> mask_of(white) & mask_of(black) != 0,
        mask_of(white) & mask_of(black) == 0 <==> disjoint(mask_of(white), mask_of(black)),
{
    broadcast use group_mask;
    let (w, b) = (mask_of(white), mask_of(black));
    lemma_mask_of(white, "white"@);
    lemma_mask_of(black, "black"@);
    lemma_on_board(w);
    lemma_disjoint(w, b);
    if w & b != 0 {
        lemma_nonzero(w & b);
        let p = choose|p: int| 0 <= p < 32 && member(w & b, p);
        assert(member(w, p) && member(b, p));
        assert(white.contains(p as u8) && black.contains(p as u8));
    }
    if exists|p: u8| #[trigger] white.contains(p) && black.contains(p) {
        let p = choose|p: u8| #[trigger] white.contains(p) && black.contains(p);
        lemma_points_small(white, "white"@, p);
        assert(member(w, p as int) && member(b, p as int));
        assert(member(w & b, p as int));
    }
}

proof fn lemma_points_small(points: Seq<u8>, color: Seq<char>, p: u8)
    requires
        side_fault(points, color) is None,
        points.contains(p),
    ensures
        p < 24,
    decreases points.len(),
{
    let i = points.index_of(p);
    if i < points.len() - 1 {
        assert(points.drop_last()[i] == p);
        lemma_points_small(points.drop_last(), color, p);
    }
}

/// The position of the given stones for the side that is to move.
pub open spec fn internal(white: u32, black: u32, turn: Color) -> Position {
    match turn {
        Color::White => pack(white, black),
        Color::Black => pack(black, white),
    }
}

/// Physical colors to mover and opponent.
pub fn to_internal(white_bits: u32, black_bits: u32, turn: Color) -> (pos: Position)
    requires
        on_board(white_bits),
        on_board(black_bits),
        disjoint(white_bits, black_bits),
    ensures
        pos == internal(white_bits, black_bits, turn),
        pos.wf(),
        pos.w() == (if turn is White {
            white_bits
        } else {
            black_bits
        }),
        pos.b() == (if turn is White {
            black_bits
        } else {
            white_bits
        }),
{
    let p = Position::new(white_bits, black_bits);
    match turn {
        Color::White => p,
        Color::Black => p.swap_colors(),
    }
}

/// A list of points, as integers.
pub open spec fn as_points(s: Seq<u8>) -> Seq<int> {
    s.map_values(|p: u8| p as int)
}

/// The state shows the position `pos`, in which `turn` is to move, and the
/// stones in hand. Points are listed in ascending order.
pub open spec fn shows(s: StateJson, pos: Position, turn: Color, white_hand: u8, black_hand: u8) -> bool {
    let (white, black) = match turn {
        Color::White => (pos.w(), pos.b()),
        Color::Black => (pos.b(), pos.w()),
    };
    &&& as_points(s.white@) == points(white)
    &&& as_points(s.black@) == points(black)
    &&& s.turn == turn
    &&& s.white_hand == white_hand
    &&& s.black_hand == black_hand
}

/// The points of a set, in ascending order.
fn point_list(m: u32) -> (v: Vec<u8>)
    ensures
        as_points(v@) == points(m),
{
    let list: Vec<usize> = bits(m);
    let mut v: Vec<u8> = Vec::new();
    let mut i: usize = 0;
    proof {
        lemma_points_below(m, 32);
    }
    while i < list.len()
        invariant
            i <= list.len(),
            as_ints(list@) == points(m),
            as_points(v@) == points(m).take(i as int),
            forall|p: int| #[trigger] points(m).contains(p) ==> 0 <= p < 32,
        decreases list.len() - i,
    {
        let p: usize = list[i];
        assert(as_ints(list@)[i as int] == p);
        assert(points(m).contains(p as int));
        let ghost before = v@;
        v.push(p as u8);
        assert(as_points(v@) =~= as_points(before).push(p as int));
        assert(points(m).take(i + 1) =~= points(m).take(i as int).push(p as int));
        i = i + 1;
    }
    assert(as_ints(list@).len() == list@.len());
    assert(points(m).take(i as int) =~= points(m));
    v
}

/// Mover and opponent, with `turn` to move, to physical colors.
pub fn to_state_json(pos: Position, turn: Color, white_hand: u8, black_hand: u8) -> (s: StateJson)
    requires
        disjoint(pos.w(), pos.b()),
    ensures
        shows(s, pos, turn, white_hand, black_hand),
{
    let phys = match turn {
        Color::White => pos,
        Color::Black => pos.swap_colors(),
    };
    StateJson {
        white: point_list(phys.white()),
        black: point_list(phys.black()),
        turn,
        white_hand,
        black_hand,
    }
}

proof fn lemma_listed(s: Seq<u8>, color: Seq<char>, m: u32, n: int)
    requires
        0 <= n <= 24,
        as_points(s) == points_below(m, n),
    ensures
        side_fault(s, color) is None,
        forall|p: int| #[trigger] member(mask_of(s), p) <==> p < n && member(m, p),
    decreases n,
{
    broadcast use group_mask;
    if n > 0 {
        if member(m, n - 1) {
            let rest = s.drop_last();
            assert(as_points(s).len() == s.len());
            assert(as_points(rest) =~= as_points(s).drop_last());
            assert(points_below(m, n).drop_last() =~= points_below(m, n - 1));
            assert(as_points(s)[s.len() - 1] == n - 1);
            lemma_listed(rest, color, m, n - 1);
            if rest.contains(s.last()) {
                let i = rest.index_of(s.last());
                lemma_points_below(m, n - 1);
                assert(as_points(rest)[i] == n - 1);
                assert(points_below(m, n - 1).contains(n - 1));
            }
            assert(s =~= rest.push(s.last()));
            assert forall|p: int| #[trigger] member(mask_of(s), p) <==> p < n && member(m, p) by {
                assert(member(mask_of(rest), p) <==> p < n - 1 && member(m, p));
            }
        } else {
            lemma_listed(s, color, m, n - 1);
        }
    } else {
        assert(as_points(s).len() == s.len());
        assert(mask_of(s) == 0);
    }
}

/// A list of the points of a set stands for that set.
proof fn lemma_list_of_set(s: Seq<u8>, color: Seq<char>, m: u32)
    requires
        on_board(m),
        as_points(s) == points(m),
    ensures
        side_fault(s, color) is None,
        mask_of(s) == m,
        s.len() == count(m),
{
    broadcast use group_mask;
    lemma_on_board(m);
    reveal_with_fuel(points_below, 9);
    lemma_listed(s, color, m, 24);
    lemma_mask_of(s, color);
    lemma_ext(mask_of(s), m);
}

/// What is shown can be read back: a state that shows a position stands for
/// that position.
pub proof fn shown_states_read_back(s: StateJson, pos: Position, turn: Color, white_hand: u8, black_hand: u8)
    requires
        pos.wf(),
        shows(s, pos, turn, white_hand, black_hand),
    ensures
        side_fault(s.white@, "white"@) is None,
        side_fault(s.black@, "black"@) is None,
        internal(mask_of(s.white@), mask_of(s.black@), s.turn) == pos,
{
    lemma_halves_on_board(pos);
    let (white, black) = match turn {
        Color::White => (pos.w(), pos.b()),
        Color::Black => (pos.b(), pos.w()),
    };
    lemma_list_of_set(s.white@, "white"@, white);
    lemma_list_of_set(s.black@, "black"@, black);
    lemma_unpack(pos);
}

/// Every registered subspace has all its values, and a complete database has
/// all 49 subspaces.
pub open spec fn ready(db: &Database, complete: bool) -> bool {
    forall|sub: SubspaceId| #[trigger]
        sub.wf() && (complete || db@.contains_key((sub.w, sub.b))) ==> db.covers(sub.w as nat, sub.b as nat)
}

/// Whether a database is fit for analysis.
pub fn is_ready(db: &Database, complete: bool) -> (r: bool)
    ensures
        r == ready(db, complete),
{
    let all: Vec<SubspaceId> = all_subspaces();
    let mut i: usize = 0;
    while i < all.len()
        invariant
            i <= all.len(),
            all@ == Seq::new(49, |i: int| SubspaceId { w: (3 + i / 7) as u8, b: (3 + i % 7) as u8 }),
            forall|k: int|
                0 <= k < i ==> {
                    let sub = #[trigger] all[k];
                    complete || db@.contains_key((sub.w, sub.b)) ==> db.covers(sub.w as nat, sub.b as nat)
                },
        decreases all.len() - i,
    {
        let sub: SubspaceId = all[i];
        assert(sub.wf());
        if (complete || db.has(sub.w as usize, sub.b as usize)) && !db.is_covered(sub) {
            return false;
        }
        i = i + 1;
    }
    assert forall|sub: SubspaceId| #[trigger]
        sub.wf() && (complete || db@.contains_key((sub.w, sub.b))) implies db.covers(sub.w as nat, sub.b as nat) by {
        let k = (sub.w - 3) * 7 + (sub.b - 3);
        assert(all[k] == sub);
    }
    true
}

/// The worth of a move for the player who makes it, from the worth of what it
/// leads to for the other.
pub open spec fn before(r: Score) -> Score {
    match r {
        Score::Win(d) => Score::Loss(d + 1),
        Score::Loss(d) => Score::Win(d + 1),
        Score::Draw => Score::Draw,
    }
}

/// A worth as an outcome with its depth.
pub open spec fn value_json(r: Score) -> ValueJson {
    match r {
        Score::Win(d) => ValueJson { outcome: Outcome::Win, plies: Some(d as u16) },
        Score::Loss(d) => ValueJson { outcome: Outcome::Loss, plies: Some(d as u16) },
        Score::Draw => ValueJson { outcome: Outcome::Draw, plies: None },
    }
}

/// The value of making a move, for the player making it, given the successor.
/// The successor's own code belongs to the other player, so the outcome is
/// turned round and the depth is one ply more.
fn movement_move_value(succ: Position, db: &Database) -> (v: ValueJson)
    requires
        succ.wf(),
        count(succ.w()) >= 3 ==> db.covers(count(succ.w()), count(succ.b())),
    ensures
        v == value_json(before(decode(reply_code(db, succ)))),
{
    let code: u16 = if succ.white_count() < 3 {
        0
    } else {
        db.lookup_pos(succ)
    };
    if code == DRAW {
        ValueJson { outcome: Outcome::Draw, plies: None }
    } else if code % 2 == 0 {
        ValueJson { outcome: Outcome::Win, plies: Some(code + 1) }
    } else {
        ValueJson { outcome: Outcome::Loss, plies: Some(code + 1) }
    }
}

/// The value of a position for the side to move, as it is stored.
fn movement_position_value(pos: Position, db: &Database) -> (v: ValueJson)
    requires
        pos.wf(),
        db.covers(count(pos.w()), count(pos.b())),
    ensures
        v == value_json(db.worth(pos)),
{
    let code: u16 = db.lookup_pos(pos);
    if code == DRAW {
        ValueJson { outcome: Outcome::Draw, plies: None }
    } else if code % 2 == 0 {
        ValueJson { outcome: Outcome::Loss, plies: Some(code) }
    } else {
        ValueJson { outcome: Outcome::Win, plies: Some(code) }
    }
}

/// The capture part of a move in notation.
pub open spec fn capture_text(capture: Option<u8>) -> Seq<char> {
    match capture {
        Some(c) => "x"@ + name_of(c as int),
        None => Seq::empty(),
    }
}

/// Appends the capture part of a move.
fn push_capture(s: &mut String, capture: Option<u8>)
    requires
        capture matches Some(c) ==> c < 24,
    ensures
        final(s)@ == old(s)@ + capture_text(capture),
{
    let ghost before = s@;
    if let Some(c) = capture {
        push_text(s, "x");
        push_text(s, point_name(c as usize).as_str());
    }
    assert(s@ =~= before + capture_text(capture));
}

/// A move as text, such as `a1-a4xb6`.
pub fn movement_notation(from: u8, to: u8, capture: Option<u8>) -> (s: String)
    requires
        from < 24,
        to < 24,
        capture matches Some(c) ==> c < 24,
    ensures
        s@ == name_of(from as int) + "-"@ + name_of(to as int) + capture_text(capture),
{
    let mut s: String = point_name(from as usize);
    push_text(&mut s, "-");
    push_text(&mut s, point_name(to as usize).as_str());
    push_capture(&mut s, capture);
    s
}

/// A placement as text, such as `a1xb6`.
pub fn placement_notation(to: u8, capture: Option<u8>) -> (s: String)
    requires
        to < 24,
        capture matches Some(c) ==> c < 24,
    ensures
        s@ == name_of(to as int) + capture_text(capture),
{
    let mut s: String = point_name(to as usize);
    push_capture(&mut s, capture);
    s
}

/// The game is over: `winner` has won for the given reason.
pub open spec fn over(a: AnalyzeResponse, phase: Seq<char>, winner: Color, reason: Seq<char>) -> bool {
    &&& a.phase@ == phase
    &&& a.result matches Some(x) && x.winner == winner && x.reason@ == reason
    &&& a.value is None
    &&& a.moves@.len() == 0
    &&& a.engine_move is None
}

fn game_over_response(phase: &'static str, winner: Color, reason: &'static str) -> (a: AnalyzeResponse)
    ensures
        over(a, phase@, winner, reason@),
{
    AnalyzeResponse {
        phase,
        result: Some(ResultJson { winner, reason }),
        value: None,
        moves: Vec::new(),
        engine_move: None,
    }
}

/// The move from `pos` to `s` takes the stone on `from` to `to`, and captures
/// the stone on `capture` if it closes a mill.
pub open spec fn is_move(pos: Position, s: Position, from: u8, to: u8, capture: Option<u8>) -> bool {
    match capture {
        None => is_quiet_move(pos, s, from as int, to as int),
        Some(c) => is_capture(pos, s, from as int, to as int, c as int),
    }
}

/// The only point of a set.
fn only_point(m: u32, Ghost(p): Ghost<int>) -> (r: u8)
    requires
        0 <= p < 24,
        forall|q: int| #[trigger] member(m, q) <==> q == p,
    ensures
        r == p,
{
    proof {
        assert(member(m, p));
        lemma_nonzero(m);
    }
    lowest(m) as u8
}

/// The stone that a move captured: the one that is on the board before it and
/// not after it.
fn captured(before: u32, after: u32, Ghost(t): Ghost<Option<int>>) -> (r: Option<u8>)
    requires
        match t {
            Some(p) => 0 <= p < 24 && member(before, p) && after == without(before, p),
            None => after == before,
        },
    ensures
        match t {
            Some(p) => r == Some(p as u8),
            None => r is None,
        },
{
    let m: u32 = before & !after;
    proof {
        broadcast use group_mask;
        lemma_nonzero(m);
        if let Some(p) = t {
            assert(member(m, p));
        }
    }
    if m == 0 {
        None
    } else {
        Some(only_point(m, Ghost(t->0)))
    }
}

/// How a move goes from `pos` to its successor `s`, in which the mover's stones
/// are `s.black()`.
fn move_parts(pos: Position, s: Position) -> (r: (u8, u8, Option<u8>))
    requires
        pos.wf(),
        succs(pos).contains(s),
    ensures
        r.0 < 24,
        r.1 < 24,
        r.2 matches Some(c) ==> c < 24,
        is_move(pos, s, r.0, r.1, r.2),
{
    proof {
        broadcast use group_mask;
        successors_are_the_legal_moves(pos);
        lemma_halves_on_board(pos);
        lemma_on_board(pos.w());
        lemma_on_board(pos.b());
        lemma_disjoint(pos.w(), pos.b());
    }
    let ghost quiet = quiet_edge(pos, s);
    let ghost (from, to, taken) = if quiet {
        let (f, t) = choose|f: int, t: int| is_quiet_move(pos, s, f, t);
        (f, t, None::<int>)
    } else {
        let (f, t, c) = choose|f: int, t: int, c: int| is_capture(pos, s, f, t, c);
        (f, t, Some(c))
    };
    proof {
        assert(may_step(pos.w(), pos.b(), from, to));
        assert(s.b() == relocate(pos.w(), from, to));
        if let Some(c) = taken {
            assert(removable(pos.b(), c));
        }
    }
    let f: u8 = only_point(pos.white() & !s.black(), Ghost(from));
    let t: u8 = only_point(s.black() & !pos.white(), Ghost(to));
    let c: Option<u8> = captured(pos.black(), s.white(), Ghost(taken));
    (f, t, c)
}

/// The answer is an error with the given status and message.
pub open spec fn refused(r: Result<AnalyzeResponse, ApiError>, status: u16, message: Seq<char>) -> bool {
    r matches Err(e) && e.status == status && e.message@ == message
}

/// The first subspace that the analysis of `pos` needs and a partial database
/// lacks: its own, the one that quiet moves lead to, or the one that captures
/// lead to.
pub open spec fn lacking(db: &Database, complete: bool, pos: Position) -> Option<(int, int)> {
    let (w, b) = (count(pos.w()) as int, count(pos.b()) as int);
    if complete {
        None
    } else if !db@.contains_key((w as u8, b as u8)) {
        Some((w, b))
    } else if !db@.contains_key((b as u8, w as u8)) {
        Some((b, w))
    } else if b > 3 && !db@.contains_key(((b - 1) as u8, w as u8)) {
        Some((b - 1, w))
    } else {
        None
    }
}

/// The message for a subspace that is not there.
pub open spec fn not_loaded(w: int, b: int) -> Seq<char> {
    "subspace ("@ + decimal(w as nat) + ","@ + decimal(b as nat)
        + ") is not loaded (partial database) -- this analysis needs it"@
}

/// Whether a subspace that is needed is there.
fn need(db: &Database, w: usize, b: usize) -> (r: Result<(), ApiError>)
    ensures
        match r {
            Ok(_) => db@.contains_key((w as u8, b as u8)),
            Err(e) => !db@.contains_key((w as u8, b as u8)) && e.status == 409 && e.message@ == not_loaded(
                w as int,
                b as int,
            ),
        },
{
    if db.has(w, b) {
        return Ok(());
    }
    let mut text: String = String::new();
    push_text(&mut text, "subspace (");
    push_decimal(&mut text, w as u64);
    push_text(&mut text, ",");
    push_decimal(&mut text, b as u64);
    push_text(&mut text, ") is not loaded (partial database) -- this analysis needs it");
    assert(text@ =~= not_loaded(w as int, b as int));
    Err(conflict(text))
}

/// Checks that a partial database has what the analysis of `pos` needs.
fn check_loaded(db: &Database, complete: bool, pos: Position) -> (r: Result<(), ApiError>)
    requires
        pos.wf(),
    ensures
        match r {
            Ok(_) => lacking(db, complete, pos) is None,
            Err(e) => lacking(db, complete, pos) matches Some((w, b)) && e.status == 409 && e.message@ == not_loaded(w, b),
        },
{
    if complete {
        return Ok(());
    }
    let w: usize = pos.white_count() as usize;
    let b: usize = pos.black_count() as usize;
    match need(db, w, b) {
        Ok(_) => {},
        Err(e) => {
            return Err(e);
        },
    }
    match need(db, b, w) {
        Ok(_) => {},
        Err(e) => {
            return Err(e);
        },
    }
    if b > 3 {
        return need(db, b - 1, w);
    }
    Ok(())
}

/// What is owed for the move from `pos` to `s`.
pub open spec fn movement_move(m: MoveJson, pos: Position, s: Position, turn: Color, value: Option<ValueJson>) -> bool {
    &&& m.from matches Some(from) && {
        &&& is_move(pos, s, from, m.to, m.capture)
        &&& m.notation@ == name_of(from as int) + "-"@ + name_of(m.to as int) + capture_text(m.capture)
    }
    &&& m.value == value
    &&& shows(m.result, s, turn.opposite(), 0, 0)
}

/// The value where it was asked for.
pub open spec fn asked(evaluate: bool, v: ValueJson) -> Option<ValueJson> {
    if evaluate {
        Some(v)
    } else {
        None
    }
}

/// Item `k` of a list of successors is the one to choose.
pub open spec fn is_choice(db: &Database, l: Seq<Position>, k: int) -> bool {
    0 <= k < l.len() && exists|code: int| best_choice(db, l, l[k], code)
}

/// What is owed for a position in which the game goes on.
pub open spec fn movement_analysis(a: AnalyzeResponse, evaluate: bool, pos: Position, turn: Color, db: &Database) -> bool {
    &&& a.phase@ == "movement"@
    &&& a.result is None
    &&& a.value == asked(evaluate, value_json(db.worth(pos)))
    &&& a.moves@.len() == succs(pos).len()
    &&& forall|i: int|
        0 <= i < a.moves@.len() ==> movement_move(
            #[trigger] a.moves@[i],
            pos,
            succs(pos)[i],
            turn,
            asked(evaluate, value_json(before(decode(reply_code(db, succs(pos)[i]))))),
        )
    &&& a.engine_move matches Some(k) && is_choice(db, succs(pos), k as int)
}

/// What is owed in the movement phase.
pub open spec fn movement_reply(
    r: Result<AnalyzeResponse, ApiError>,
    evaluate: bool,
    pos: Position,
    turn: Color,
    db: &Database,
    complete: bool,
) -> bool {
    if count(pos.w()) < 3 {
        r matches Ok(a) && over(a, "movement"@, turn.opposite(), "fewerThanThree"@)
    } else if count(pos.b()) < 3 {
        r matches Ok(a) && over(a, "movement"@, turn, "fewerThanThree"@)
    } else if succs(pos).len() == 0 {
        r matches Ok(a) && over(a, "movement"@, turn.opposite(), "noMoves"@)
    } else {
        match lacking(db, complete, pos) {
            Some((w, b)) => refused(r, 409, not_loaded(w, b)),
            None => r matches Ok(a) && movement_analysis(a, evaluate, pos, turn, db),
        }
    }
}

/// The game goes on in the movement phase.
pub open spec fn goes_on(pos: Position) -> bool {
    count(pos.w()) >= 3 && count(pos.b()) >= 3 && succs(pos).len() > 0
}

/// Where the analysis looks values up, they are there: those of the successors,
/// for the move to choose, and that of the position, if it is asked for.
pub open spec fn movement_answerable(db: &Database, complete: bool, evaluate: bool, pos: Position) -> bool {
    goes_on(pos) && lacking(db, complete, pos) is None ==> {
        &&& replies_covered(db, pos)
        &&& evaluate ==> db.covers(count(pos.w()), count(pos.b()))
    }
}

/// A database that lacks nothing for `pos` has the values of its successors.
proof fn lemma_replies_covered(db: &Database, complete: bool, pos: Position)
    requires
        ready(db, complete),
        pos.wf(),
        stones(count(pos.w()) as int),
        stones(count(pos.b()) as int),
        lacking(db, complete, pos) is None,
    ensures
        db.covers(count(pos.w()), count(pos.b())),
        replies_covered(db, pos),
{
    let (w, b) = (count(pos.w()), count(pos.b()));
    let own = SubspaceId { w: w as u8, b: b as u8 };
    assert(own.wf());
    successors_are_the_legal_moves(pos);
    assert forall|s: Position| #[trigger] succs(pos).contains(s) && count(s.w()) >= 3 implies db.covers(
        count(s.w()),
        count(s.b()),
    ) by {
        lemma_move_counts(pos, s);
        let sub = SubspaceId { w: count(s.w()) as u8, b: count(s.b()) as u8 };
        assert(sub.wf());
    }
}

/// The place of a successor in the list of successors.
fn place_of(list: &Vec<Position>, s: Position) -> (k: usize)
    requires
        list@.contains(s),
    ensures
        k < list.len(),
        list[k as int] == s,
{
    let mut k: usize = 0;
    while list[k] != s
        invariant
            k < list.len(),
            list@.contains(s),
            forall|j: int| 0 <= j < k ==> list[j] != s,
        decreases list.len() - k,
    {
        proof {
            let j = list@.index_of(s);
            assert(list[j] == s);
        }
        k = k + 1;
    }
    k
}

/// Analysis in the movement phase.
pub fn analyze_movement(req: &AnalyzeRequest, white_bits: u32, black_bits: u32, turn: Color, db: &Database, complete: bool) -> (r: Result<
    AnalyzeResponse,
    ApiError,
>)
    requires
        on_board(white_bits),
        on_board(black_bits),
        disjoint(white_bits, black_bits),
        movement_answerable(db, complete, req.evaluate, internal(white_bits, black_bits, turn)),
    ensures
        movement_reply(r, req.evaluate, internal(white_bits, black_bits, turn), turn, db, complete),
{
    let pos = to_internal(white_bits, black_bits, turn);
    if pos.white_count() < 3 {
        return Ok(game_over_response("movement", turn.other(), "fewerThanThree"));
    }
    if pos.black_count() < 3 {
        return Ok(game_over_response("movement", turn, "fewerThanThree"));
    }
    let next: Vec<Position> = successors(pos);
    if next.len() == 0 {
        return Ok(game_over_response("movement", turn.other(), "noMoves"));
    }
    match check_loaded(db, complete, pos) {
        Ok(_) => {},
        Err(e) => {
            return Err(e);
        },
    }
    proof {
        successors_are_the_legal_moves(pos);
    }
    let mut moves: Vec<MoveJson> = Vec::new();
    let mut i: usize = 0;
    while i < next.len()
        invariant
            i <= next.len(),
            next@ == succs(pos),
            pos.wf(),
            replies_covered(db, pos),
            moves.len() == i,
            forall|s: Position| #[trigger] succs(pos).contains(s) ==> s.wf(),
            forall|k: int|
                0 <= k < i ==> movement_move(
                    #[trigger] moves@[k],
                    pos,
                    succs(pos)[k],
                    turn,
                    asked(req.evaluate, value_json(before(decode(reply_code(db, succs(pos)[k]))))),
                ),
        decreases next.len() - i,
    {
        let s: Position = next[i];
        assert(succs(pos).contains(s));
        let (from, to, capture) = move_parts(pos, s);
        let value: Option<ValueJson> = if req.evaluate {
            Some(movement_move_value(s, db))
        } else {
            None
        };
        let notation: String = movement_notation(from, to, capture);
        let result: StateJson = to_state_json(s, turn.other(), 0, 0);
        moves.push(MoveJson { from: Some(from), to, capture, notation, value, result });
        i = i + 1;
    }
    let value: Option<ValueJson> = if req.evaluate {
        Some(movement_position_value(pos, db))
    } else {
        None
    };
    let engine_move: Option<usize> = match best_movement_move(pos, db) {
        Some(c) => {
            proof {
                lemma_best_choice_listed(db, succs(pos), c.successor, c.value_code as int);
            }
            let k: usize = place_of(&next, c.successor);
            assert(best_choice(db, succs(pos), succs(pos)[k as int], c.value_code as int));
            assert(is_choice(db, succs(pos), k as int));
            Some(k)
        },
        None => None,
    };
    let analysis = AnalyzeResponse { phase: "movement", result: None, value, moves, engine_move };
    assert(movement_analysis(analysis, req.evaluate, pos, turn, db));
    Ok(analysis)
}

/// The best choice is one of the list.
proof fn lemma_best_choice_listed(db: &Database, l: Seq<Position>, s: Position, code: int)
    requires
        best_choice(db, l, s, code),
    ensures
        l.contains(s),
{
}

/// Placing a stone on `to` leads from `pos` to `s`, and captures the stone on
/// `capture` if it closes a mill.
pub open spec fn is_placement(pos: Position, s: Position, to: u8, capture: Option<u8>) -> bool {
    &&& vacant(pos.w(), pos.b(), to as int)
    &&& s.b() == with(pos.w(), to as int)
    &&& match capture {
        None => !in_mill(s.b(), to as int) && s.w() == pos.b(),
        Some(c) => in_mill(s.b(), to as int) && removable(pos.b(), c as int) && s.w() == without(pos.b(), c as int),
    }
}

/// The outcome that a worth stands for.
pub open spec fn outcome_of(v: int) -> Outcome {
    if v < 0 {
        Outcome::Loss
    } else if v == 0 {
        Outcome::Draw
    } else {
        Outcome::Win
    }
}

/// What is owed for the placement that leads from `ps` to `s`.
pub open spec fn placement_move(m: MoveJson, ps: PlacementState, s: PlacementState, turn: Color, value: Option<ValueJson>) -> bool {
    &&& m.from is None
    &&& is_placement(ps.pos, s.pos, m.to, m.capture)
    &&& m.notation@ == name_of(m.to as int) + capture_text(m.capture)
    &&& m.value == value
    &&& match turn.opposite() {
        Color::White => shows(m.result, s.pos, Color::White, s.mover_hand, s.opp_hand),
        Color::Black => shows(m.result, s.pos, Color::Black, s.opp_hand, s.mover_hand),
    }
}

/// What is owed for a placement state in which the game goes on. The chosen
/// move is the first of the best, whether or not the moves are valued.
pub open spec fn placement_analysis(
    a: AnalyzeResponse,
    evaluate: bool,
    engine: bool,
    ps: PlacementState,
    turn: Color,
    db: &Database,
) -> bool {
    let next = next_states(ps);
    &&& a.phase@ == "placement"@
    &&& a.result is None
    &&& a.value == asked(evaluate, ValueJson { outcome: outcome_of(worth(db, ps)), plies: None })
    &&& a.moves@.len() == next.len()
    &&& forall|i: int|
        0 <= i < a.moves@.len() ==> placement_move(
            #[trigger] a.moves@[i],
            ps,
            next[i],
            turn,
            asked(evaluate, ValueJson { outcome: outcome_of(-worth(db, next[i])), plies: None }),
        )
    &&& match a.engine_move {
        Some(k) => (evaluate || engine) && first_best(db, next, k as int),
        None => !evaluate && !engine,
    }
}

/// The placement state that a state stands for.
pub open spec fn placement_state(s: StateJson) -> PlacementState {
    let pos = internal(mask_of(s.white@), mask_of(s.black@), s.turn);
    match s.turn {
        Color::White => PlacementState { pos, mover_hand: s.white_hand, opp_hand: s.black_hand },
        Color::Black => PlacementState { pos, mover_hand: s.black_hand, opp_hand: s.white_hand },
    }
}

/// The message for a placement state with a partial database.
pub open spec fn placement_needs_all() -> Seq<char> {
    "placement analysis requires the complete 49-subspace database (the opening search can reach nearly any material split)"@
}

/// What is owed in the placement phase.
pub open spec fn placement_reply(
    r: Result<AnalyzeResponse, ApiError>,
    evaluate: bool,
    engine: bool,
    ps: PlacementState,
    turn: Color,
    db: &Database,
    complete: bool,
) -> bool {
    if !complete {
        refused(r, 409, placement_needs_all())
    } else if ps.mover_stones() < 3 {
        r matches Ok(a) && over(a, "placement"@, turn.opposite(), "fewerThanThree"@)
    } else if ps.opp_stones() < 3 {
        r matches Ok(a) && over(a, "placement"@, turn, "fewerThanThree"@)
    } else if next_states(ps).len() == 0 {
        r matches Ok(a) && over(a, "placement"@, turn.opposite(), "noMoves"@)
    } else {
        r matches Ok(a) && placement_analysis(a, evaluate, engine, ps, turn, db)
    }
}

/// What is owed for a placement state in which the game goes on, whatever the
/// table says: every move, with an outcome where values are asked for, and one
/// of them chosen where a choice is.
pub open spec fn placement_listing(a: AnalyzeResponse, evaluate: bool, engine: bool, ps: PlacementState, turn: Color) -> bool {
    let next = next_states(ps);
    &&& a.phase@ == "placement"@
    &&& a.result is None
    &&& a.value is Some <==> evaluate
    &&& a.value matches Some(v) ==> v.plies is None
    &&& a.moves@.len() == next.len()
    &&& forall|i: int|
        0 <= i < a.moves@.len() ==> {
            let m = #[trigger] a.moves@[i];
            &&& placement_move(m, ps, next[i], turn, m.value)
            &&& m.value is Some <==> evaluate
            &&& m.value matches Some(v) ==> v.plies is None
        }
    &&& match a.engine_move {
        Some(k) => (evaluate || engine) && k < next.len() && (evaluate ==> chosen_by_values(a.moves@, k as int)),
        None => !evaluate && !engine,
    }
}

/// The move is given the outcome.
pub open spec fn given(m: MoveJson, outcome: Outcome) -> bool {
    m.value matches Some(v) && v.outcome == outcome
}

/// Move `k` is the first that is given the outcome.
pub open spec fn first_given(moves: Seq<MoveJson>, outcome: Outcome, k: int) -> bool {
    &&& 0 <= k < moves.len()
    &&& given(moves[k], outcome)
    &&& forall|j: int| 0 <= j < k ==> !given(#[trigger] moves[j], outcome)
}

/// No move is given the outcome.
pub open spec fn none_given(moves: Seq<MoveJson>, outcome: Outcome) -> bool {
    forall|j: int| 0 <= j < moves.len() ==> !given(#[trigger] moves[j], outcome)
}

/// Move `k` is the first win, else the first draw, else the first of all.
pub open spec fn chosen_by_values(moves: Seq<MoveJson>, k: int) -> bool {
    if !none_given(moves, Outcome::Win) {
        first_given(moves, Outcome::Win, k)
    } else if !none_given(moves, Outcome::Draw) {
        first_given(moves, Outcome::Draw, k)
    } else {
        k == 0
    }
}

/// What is owed in the placement phase, whatever the table says.
pub open spec fn placement_form(
    r: Result<AnalyzeResponse, ApiError>,
    evaluate: bool,
    engine: bool,
    ps: PlacementState,
    turn: Color,
    complete: bool,
) -> bool {
    if !complete {
        refused(r, 409, placement_needs_all())
    } else if ps.mover_stones() < 3 {
        r matches Ok(a) && over(a, "placement"@, turn.opposite(), "fewerThanThree"@)
    } else if ps.opp_stones() < 3 {
        r matches Ok(a) && over(a, "placement"@, turn, "fewerThanThree"@)
    } else if next_states(ps).len() == 0 {
        r matches Ok(a) && over(a, "placement"@, turn.opposite(), "noMoves"@)
    } else {
        r matches Ok(a) && placement_listing(a, evaluate, engine, ps, turn)
    }
}

/// A placement brings one stone on the board, and takes at most one off.
pub proof fn lemma_placement_counts(pos: Position, s: Position)
    requires
        pos.wf(),
        placements(pos.w(), pos.b()).contains(s),
    ensures
        s.wf(),
        count(s.b()) == count(pos.w()) + 1,
        count(pos.b()) - 1 <= count(s.w()) <= count(pos.b()),
{
    broadcast use group_mask;
    lemma_halves_on_board(pos);
    placements_are_the_legal_placements(pos);
    let to = choose|to: int| #[trigger] place_leads(pos.w(), pos.b(), to, s);
    lemma_count_with(pos.w(), to);
    if in_mill(s.b(), to) {
        let t = choose|t: int| #[trigger] removable(pos.b(), t) && s.w() == without(pos.b(), t);
        lemma_count_without(pos.b(), t);
    }
}

/// A complete database has what any placement with enough stones can end with.
pub proof fn complete_databases_cover(db: &Database, ps: PlacementState)
    requires
        ready(db, true),
        ps.pos.wf(),
        ps.mover_stones() <= 9,
        3 <= ps.opp_stones() <= 9,
    ensures
        covered(db, ps),
    decreases ps.in_hand(),
{
    if ps.mover_stones() >= 3 {
        if ps.in_hand() == 0 {
            let sub = SubspaceId { w: count(ps.pos.w()) as u8, b: count(ps.pos.b()) as u8 };
            assert(sub.wf());
        } else {
            lemma_replies_all_covered(db, ps, next_states(ps).len() as int);
            assert(next_states(ps).take(next_states(ps).len() as int) =~= next_states(ps));
        }
    }
}

proof fn lemma_replies_all_covered(db: &Database, ps: PlacementState, n: int)
    requires
        ready(db, true),
        ps.pos.wf(),
        3 <= ps.mover_stones() <= 9,
        ps.opp_stones() <= 9,
        0 <= n <= next_states(ps).len(),
    ensures
        all_covered(db, ps.in_hand(), next_states(ps).take(n)),
        forall|i: int| 0 <= i < n ==> covered(db, #[trigger] next_states(ps)[i]),
    decreases ps.in_hand(), n,
{
    if n > 0 {
        let l = next_states(ps);
        lemma_next_states(ps);
        lemma_replies_all_covered(db, ps, n - 1);
        assert(l.take(n).drop_last() =~= l.take(n - 1));
        let t = l[n - 1];
        lemma_placement_counts(ps.pos, t.pos);
        assert(ps.mover_hand > 0);
        complete_databases_cover(db, t);
    }
}

/// How a placement goes from `pos` to its successor `s`.
fn placement_parts(pos: Position, s: Position) -> (r: (u8, Option<u8>))
    requires
        pos.wf(),
        placements(pos.w(), pos.b()).contains(s),
    ensures
        r.0 < 24,
        r.1 matches Some(c) ==> c < 24,
        is_placement(pos, s, r.0, r.1),
{
    proof {
        broadcast use group_mask;
        placements_are_the_legal_placements(pos);
        lemma_halves_on_board(pos);
        lemma_on_board(pos.b());
    }
    let ghost to = choose|to: int| #[trigger] place_leads(pos.w(), pos.b(), to, s);
    let ghost taken = if in_mill(s.b(), to) {
        Some(choose|t: int| #[trigger] removable(pos.b(), t) && s.w() == without(pos.b(), t))
    } else {
        None
    };
    let t: u8 = only_point(s.black() & !pos.white(), Ghost(to));
    let c: Option<u8> = captured(pos.black(), s.white(), Ghost(taken));
    (t, c)
}

/// The place of the first occurrence of a state in a list.
fn first_place_of(list: &Vec<PlacementState>, s: PlacementState) -> (k: usize)
    requires
        list@.contains(s),
    ensures
        k < list.len(),
        list[k as int] == s,
        forall|j: int| 0 <= j < k ==> list[j] != s,
{
    let mut k: usize = 0;
    while list[k] != s
        invariant
            k < list.len(),
            list@.contains(s),
            forall|j: int| 0 <= j < k ==> list[j] != s,
        decreases list.len() - k,
    {
        proof {
            let j = list@.index_of(s);
            assert(list[j] == s);
        }
        k = k + 1;
    }
    k
}

/// The value of a placement for the player making it, from the value of what
/// it leads to for the other.
fn turned(v: Value) -> (o: Outcome)
    ensures
        o == match v {
            Value::Win => Outcome::Loss,
            Value::Draw => Outcome::Draw,
            Value::Loss => Outcome::Win,
        },
{
    match v {
        Value::Win => Outcome::Loss,
        Value::Draw => Outcome::Draw,
        Value::Loss => Outcome::Win,
    }
}

/// Where the analysis searches, the search can be done: the database has what
/// the placement can end with, and the values of the table are in range.
pub open spec fn placement_answerable(
    db: &Database,
    complete: bool,
    search: bool,
    ps: PlacementState,
    tt: Map<TtKey, TtValue>,
) -> bool {
    complete && search && ps.mover_stones() >= 3 && ps.opp_stones() >= 3 ==> covered(db, ps) && in_range(tt)
}

/// Analysis in the placement phase. The table is used only where values or a
/// chosen move are asked for.
pub fn analyze_placement(
    req: &AnalyzeRequest,
    white_bits: u32,
    black_bits: u32,
    turn: Color,
    db: &Database,
    complete: bool,
    tt: &mut Tt,
) -> (r: Result<AnalyzeResponse, ApiError>)
    requires
        fault(req.state) is None,
        placing(req.state),
        turn == req.state.turn,
        white_bits == mask_of(req.state.white@),
        black_bits == mask_of(req.state.black@),
        placement_answerable(db, complete, req.evaluate || req.engine, placement_state(req.state), old(tt)@),
    ensures
        placement_form(r, req.evaluate, req.engine, placement_state(req.state), turn, complete),
        tt_sound(db, old(tt)@) || !req.evaluate && !req.engine ==> placement_reply(
            r,
            req.evaluate,
            req.engine,
            placement_state(req.state),
            turn,
            db,
            complete,
        ),
        tt_sound(db, old(tt)@) ==> tt_sound(db, final(tt)@),
        grown(old(tt)@, final(tt)@, 9),
        !req.evaluate && !req.engine ==> final(tt)@ == old(tt)@,
{
    if !complete {
        return Err(
            conflict(
                text_of(
                    "placement analysis requires the complete 49-subspace database (the opening search can reach nearly any material split)",
                ),
            ),
        );
    }
    proof {
        lemma_valid(req.state);
    }
    let pos = to_internal(white_bits, black_bits, turn);
    let ps = match turn {
        Color::White => PlacementState { pos, mover_hand: req.state.white_hand, opp_hand: req.state.black_hand },
        Color::Black => PlacementState { pos, mover_hand: req.state.black_hand, opp_hand: req.state.white_hand },
    };
    assert(ps == placement_state(req.state));
    if ps.total_mover() < 3 {
        return Ok(game_over_response("placement", turn.other(), "fewerThanThree"));
    }
    if ps.total_opp() < 3 {
        return Ok(game_over_response("placement", turn, "fewerThanThree"));
    }
    let next: Vec<PlacementState> = crate::opening::successors(&ps);
    if next.len() == 0 {
        return Ok(game_over_response("placement", turn.other(), "noMoves"));
    }
    let ghost search = req.evaluate || req.engine;
    let ghost table = tt@;
    let ghost sound = tt_sound(db, tt@);
    proof {
        lemma_next_states(ps);
        if search {
            assert forall|k: int| 0 <= k < next@.len() implies covered(db, #[trigger] next_states(ps)[k]) by {
                lemma_all_covered(db, ps.in_hand(), next_states(ps), k);
            }
        }
    }
    let mut first_win: Option<usize> = None;
    let mut first_draw: Option<usize> = None;
    let mut moves: Vec<MoveJson> = Vec::new();
    let mut i: usize = 0;
    while i < next.len()
        invariant
            i <= next.len(),
            next@ == next_states(ps),
            ps.pos.wf(),
            search == (req.evaluate || req.engine),
            sound ==> tt_sound(db, tt@),
            search ==> in_range(tt@),
            !req.evaluate ==> tt@ == table,
            grown(table, tt@, 9),
            ps.mover_hand <= 9,
            ps.opp_hand <= 9,
            moves.len() == i,
            search ==> forall|k: int| 0 <= k < next.len() ==> covered(db, #[trigger] next_states(ps)[k]),
            forall|k: int|
                0 <= k < next.len() ==> (#[trigger] next_states(ps)[k]).mover_hand <= 9 && next_states(ps)[k].opp_hand <= 9,
            forall|k: int|
                0 <= k < next.len() ==> (#[trigger] next_states(ps)[k]).pos.wf() && placements(ps.pos.w(), ps.pos.b()).contains(
                    next_states(ps)[k].pos,
                ),
            forall|k: int|
                0 <= k < i ==> {
                    let m = #[trigger] moves@[k];
                    &&& placement_move(m, ps, next_states(ps)[k], turn, m.value)
                    &&& m.value is Some <==> req.evaluate
                    &&& m.value matches Some(v) ==> v.plies is None
                    &&& sound ==> m.value == asked(
                        req.evaluate,
                        ValueJson { outcome: outcome_of(-worth(db, next_states(ps)[k])), plies: None },
                    )
                },
            first_win matches Some(k) ==> k < i,
            first_draw matches Some(k) ==> k < i,
            match first_win {
                Some(k) => first_given(moves@, Outcome::Win, k as int),
                None => none_given(moves@, Outcome::Win),
            },
            match first_draw {
                Some(k) => first_given(moves@, Outcome::Draw, k as int),
                None => none_given(moves@, Outcome::Draw),
            },
            sound && req.evaluate ==> match first_win {
                Some(k) => {
                    &&& worth(db, next_states(ps)[k as int]) < 0
                    &&& forall|j: int| 0 <= j < k ==> worth(db, #[trigger] next_states(ps)[j]) >= 0
                },
                None => forall|j: int| 0 <= j < i ==> worth(db, #[trigger] next_states(ps)[j]) >= 0,
            },
            sound && req.evaluate ==> match first_draw {
                Some(k) => {
                    &&& worth(db, next_states(ps)[k as int]) == 0
                    &&& forall|j: int| 0 <= j < k ==> worth(db, #[trigger] next_states(ps)[j]) != 0
                },
                None => forall|j: int| 0 <= j < i ==> worth(db, #[trigger] next_states(ps)[j]) != 0,
            },
        decreases next.len() - i,
    {
        let s: PlacementState = next[i];
        assert(s == next_states(ps)[i as int]);
        let (to, capture) = placement_parts(ps.pos, s.pos);
        let (white_hand, black_hand) = match turn.other() {
            Color::White => (s.mover_hand, s.opp_hand),
            Color::Black => (s.opp_hand, s.mover_hand),
        };
        let value: Option<ValueJson> = if req.evaluate {
            let ghost before = tt@;
            let outcome: Outcome = turned(solve(&s, db, tt));
            proof {
                lemma_grown(table, before, tt@, hand_bound(s), 9);
            }
            if outcome == Outcome::Win && first_win.is_none() {
                first_win = Some(i);
            }
            if outcome == Outcome::Draw && first_draw.is_none() {
                first_draw = Some(i);
            }
            Some(ValueJson { outcome, plies: None })
        } else {
            None
        };
        let notation: String = placement_notation(to, capture);
        let result: StateJson = to_state_json(s.pos, turn.other(), white_hand, black_hand);
        let ghost before = moves@;
        moves.push(MoveJson { from: None, to, capture, notation, value, result });
        proof {
            assert(forall|j: int| 0 <= j < i ==> #[trigger] moves@[j] == before[j]);
            assert(first_win == Some(i) ==> given(moves@[i as int], Outcome::Win));
            assert(first_draw == Some(i) ==> given(moves@[i as int], Outcome::Draw));
        }
        i = i + 1;
    }
    let value: Option<ValueJson> = if req.evaluate {
        let ghost before = tt@;
        let outcome: Outcome = match solve(&ps, db, tt) {
            Value::Win => Outcome::Win,
            Value::Draw => Outcome::Draw,
            Value::Loss => Outcome::Loss,
        };
        proof {
            lemma_grown(table, before, tt@, hand_bound(ps), 9);
        }
        Some(ValueJson { outcome, plies: None })
    } else {
        None
    };
    proof {
        assert forall|j: int| 0 <= j < next@.len() implies -1 <= worth(db, #[trigger] next_states(ps)[j]) <= 1 by {
            lemma_worth_range(db, next_states(ps)[j]);
        }
    }
    let engine_move: Option<usize> = if req.evaluate {
        match first_win {
            Some(k) => Some(k),
            None => match first_draw {
                Some(k) => Some(k),
                None => Some(0),
            },
        }
    } else if req.engine {
        let choice: Option<PlacementState> = best_placement_move(&ps, db, tt);
        proof {
            lemma_grown(table, table, tt@, hand_bound(ps), 9);
        }
        match choice {
            Some(choice) => {
                let k: usize = first_place_of(&next, choice);
                proof {
                    if sound {
                        let b = choose|b: int| #[trigger]
                            first_best(db, next_states(ps), b) && choice == next_states(ps)[b];
                        if k < b {
                            assert(next_states(ps)[k as int] == choice);
                        }
                        assert(first_best(db, next_states(ps), k as int));
                    }
                }
                Some(k)
            },
            None => None,
        }
    } else {
        None
    };
    Ok(AnalyzeResponse { phase: "placement", result: None, value, moves, engine_move })
}

/// What validity gives: proper sets, with at most nine stones a side.
pub proof fn lemma_valid(s: StateJson)
    requires
        fault(s) is None,
    ensures
        on_board(mask_of(s.white@)),
        on_board(mask_of(s.black@)),
        disjoint(mask_of(s.white@), mask_of(s.black@)),
        count(mask_of(s.white@)) + s.white_hand <= 9,
        count(mask_of(s.black@)) + s.black_hand <= 9,
{
    lemma_mask_of(s.white@, "white"@);
    lemma_mask_of(s.black@, "black"@);
    lemma_overlap(s.white@, s.black@);
}

/// What is owed for a request.
pub open spec fn answers(
    r: Result<AnalyzeResponse, ApiError>,
    req: AnalyzeRequest,
    db: &Database,
    complete: bool,
) -> bool {
    match fault(req.state) {
        Some(message) => refused(r, 400, message),
        None => if placing(req.state) {
            placement_reply(r, req.evaluate, req.engine, placement_state(req.state), req.state.turn, db, complete)
        } else {
            movement_reply(r, req.evaluate, placement_state(req.state).pos, req.state.turn, db, complete)
        },
    }
}

/// The request asks for a search.
pub open spec fn searches(req: AnalyzeRequest) -> bool {
    placing(req.state) && (req.evaluate || req.engine)
}

/// The request can be answered: whatever is looked up for it is there.
pub open spec fn answerable(req: AnalyzeRequest, db: &Database, complete: bool, tt: Map<TtKey, TtValue>) -> bool {
    fault(req.state) is None ==> if placing(req.state) {
        placement_answerable(db, complete, req.evaluate || req.engine, placement_state(req.state), tt)
    } else {
        movement_answerable(db, complete, req.evaluate, placement_state(req.state).pos)
    }
}

/// Values are looked up for the request: the game goes on, and in the placement
/// phase a search is asked for.
pub open spec fn takes_lookups(req: AnalyzeRequest, db: &Database, complete: bool) -> bool {
    let ps = placement_state(req.state);
    fault(req.state) is None && if placing(req.state) {
        complete && (req.evaluate || req.engine) && ps.mover_stones() >= 3 && ps.opp_stones() >= 3
    } else {
        goes_on(ps.pos) && lacking(db, complete, ps.pos) is None
    }
}

/// Whether values are looked up for the request. Where none are, any database
/// will do.
pub fn looks_up(req: &AnalyzeRequest, db: &Database, complete: bool) -> (r: bool)
    ensures
        r == takes_lookups(*req, db, complete),
        !r ==> forall|tt: Map<TtKey, TtValue>| #[trigger] answerable(*req, db, complete, tt),
{
    let state: &StateJson = &req.state;
    let (white_bits, black_bits) = match validate(state) {
        Ok(masks) => masks,
        Err(_) => {
            return false;
        },
    };
    proof {
        lemma_valid(*state);
    }
    let pos = to_internal(white_bits, black_bits, state.turn);
    if state.white_hand > 0 || state.black_hand > 0 {
        let (mover_hand, opp_hand) = match state.turn {
            Color::White => (state.white_hand, state.black_hand),
            Color::Black => (state.black_hand, state.white_hand),
        };
        let ps = PlacementState { pos, mover_hand, opp_hand };
        complete && (req.evaluate || req.engine) && ps.total_mover() >= 3 && ps.total_opp() >= 3
    } else {
        pos.white_count() >= 3 && pos.black_count() >= 3 && successors(pos).len() > 0 && check_loaded(
            db,
            complete,
            pos,
        ).is_ok()
    }
}

/// A database that is ready, with the values of the table in range, answers
/// every request.
pub proof fn ready_databases_answer(req: AnalyzeRequest, db: &Database, complete: bool, tt: Map<TtKey, TtValue>)
    requires
        ready(db, complete),
        in_range(tt),
    ensures
        answerable(req, db, complete, tt),
{
    if fault(req.state) is None {
        let s = req.state;
        let ps = placement_state(s);
        lemma_valid(s);
        lemma_internal(mask_of(s.white@), mask_of(s.black@), s.turn);
        if placing(s) {
            if complete && ps.opp_stones() >= 3 {
                complete_databases_cover(db, ps);
            }
        } else if goes_on(ps.pos) && lacking(db, complete, ps.pos) is None {
            lemma_replies_covered(db, complete, ps.pos);
        }
    }
}

/// Analyzes a state: its moves, in the order of `successors`, the values that
/// were asked for, and the move to choose. A state that cannot be is refused
/// with status 400, one that the database does not reach with status 409. Where
/// a search is asked for, its outcomes are right if what the table says is true.
pub fn analyze(req: &AnalyzeRequest, db: &Database, complete: bool, tt: &mut Tt) -> (r: Result<AnalyzeResponse, ApiError>)
    requires
        answerable(*req, db, complete, old(tt)@),
    ensures
        tt_sound(db, old(tt)@) || !searches(*req) ==> answers(r, *req, db, complete),
        searches(*req) ==> match fault(req.state) {
            Some(message) => refused(r, 400, message),
            None => placement_form(
                r,
                req.evaluate,
                req.engine,
                placement_state(req.state),
                req.state.turn,
                complete,
            ),
        },
        tt_sound(db, old(tt)@) ==> tt_sound(db, final(tt)@),
        grown(old(tt)@, final(tt)@, 9),
        storable(old(tt)@) ==> storable(final(tt)@),
        !searches(*req) ==> final(tt)@ == old(tt)@,
{
    let (white_bits, black_bits) = match validate(&req.state) {
        Ok(masks) => masks,
        Err(e) => {
            return Err(e);
        },
    };
    proof {
        lemma_valid(req.state);
    }
    let turn: Color = req.state.turn;
    if req.state.white_hand > 0 || req.state.black_hand > 0 {
        let ghost before = tt@;
        let r = analyze_placement(req, white_bits, black_bits, turn, db, complete, tt);
        proof {
            if storable(before) {
                searches_keep_tables_storable(before, tt@, 9);
            }
        }
        r
    } else {
        analyze_movement(req, white_bits, black_bits, turn, db, complete)
    }
}

/// With the colors and the turn exchanged, a state of the movement phase stands
/// for the same position.
pub proof fn colors_can_be_exchanged(s: StateJson, t: StateJson)
    requires
        t.white@ == s.black@,
        t.black@ == s.white@,
        t.turn == s.turn.opposite(),
        !placing(s),
        !placing(t),
    ensures
        fault(t) is None <==> fault(s) is None,
        placement_state(t).pos == placement_state(s).pos,
{
    lemma_color_only_named(s.white@, "white"@, "black"@);
    lemma_color_only_named(s.black@, "white"@, "black"@);
    assert((exists|p: u8| #[trigger] s.white@.contains(p) && s.black@.contains(p)) <==> (exists|p: u8| #[trigger]
        t.white@.contains(p) && t.black@.contains(p))) by {
        if exists|p: u8| #[trigger] s.white@.contains(p) && s.black@.contains(p) {
            let p = choose|p: u8| #[trigger] s.white@.contains(p) && s.black@.contains(p);
            assert(t.white@.contains(p) && t.black@.contains(p));
        }
        if exists|p: u8| #[trigger] t.white@.contains(p) && t.black@.contains(p) {
            let p = choose|p: u8| #[trigger] t.white@.contains(p) && t.black@.contains(p);
            assert(s.white@.contains(p) && s.black@.contains(p));
        }
    }
}

proof fn lemma_color_only_named(points: Seq<u8>, one: Seq<char>, other: Seq<char>)
    ensures
        side_fault(points, one) is None <==> side_fault(points, other) is None,
    decreases points.len(),
{
    if points.len() > 0 {
        lemma_color_only_named(points.drop_last(), one, other);
    }
}

/// A move goes from one point to one point, and captures one stone or none.
pub proof fn lemma_move_is_one(pos: Position, s: Position, f: u8, t: u8, c: Option<u8>, g: u8, u: u8, d: Option<u8>)
    requires
        pos.wf(),
        is_move(pos, s, f, t, c),
        is_move(pos, s, g, u, d),
    ensures
        f == g,
        t == u,
        c == d,
{
    broadcast use group_mask;
    lemma_disjoint(pos.w(), pos.b());
    assert(member(pos.w(), f as int) && !member(s.b(), f as int));
    assert(member(s.b(), t as int) && !member(pos.w(), t as int));
    match (c, d) {
        (Some(x), Some(y)) => {
            assert(member(pos.b(), x as int) && !member(s.w(), x as int));
        },
        (Some(x), None) => {
            assert(member(pos.b(), x as int) && !member(s.w(), x as int));
        },
        (None, Some(y)) => {
            assert(member(pos.b(), y as int) && !member(s.w(), y as int));
        },
        (None, None) => {},
    }
}

/// The move to choose is one of the list.
pub proof fn lemma_choice_is_one(db: &Database, l: Seq<Position>, i: int, j: int, x: int, y: int)
    requires
        l.no_duplicates(),
        0 <= i < l.len(),
        0 <= j < l.len(),
        best_choice(db, l, l[i], x),
        best_choice(db, l, l[j], y),
    ensures
        i == j,
{
    let p = lemma_choice_place(db, l, l[i], x);
    let q = lemma_choice_place(db, l, l[j], y);
    assert(p == i && q == j);
    assert(l[p] == l[p] && l[q] == l[q]);
}

pub proof fn lemma_choice_place(db: &Database, l: Seq<Position>, s: Position, code: int) -> (k: int)
    requires
        best_choice(db, l, s, code),
    ensures
        0 <= k < l.len(),
        s == l[k],
        if some_reply(db, l, |r: Score| r is Loss) {
            first_win(db, l, k)
        } else if some_reply(db, l, |r: Score| r is Draw) {
            first_draw(db, l, k)
        } else {
            first_loss(db, l, k)
        },
{
    if some_reply(db, l, |r: Score| r is Loss) {
        choose|i: int| #[trigger] first_win(db, l, i) && s == l[i] && code == reply_code(db, l[i]) + 1
    } else if some_reply(db, l, |r: Score| r is Draw) {
        choose|i: int| #[trigger] first_draw(db, l, i) && s == l[i] && code == DRAW
    } else {
        choose|i: int| #[trigger] first_loss(db, l, i) && s == l[i] && code == reply_code(db, l[i]) + 1
    }
}

/// The state with the colors and the turn exchanged.
pub open spec fn exchanged(s: StateJson, t: StateJson) -> bool {
    &&& t.white@ == s.black@
    &&& t.black@ == s.white@
    &&& t.turn == s.turn.opposite()
    &&& t.white_hand == s.black_hand
    &&& t.black_hand == s.white_hand
}

/// The two moves are the same, with the colors exchanged in what they lead to.
pub open spec fn same_move(m: MoveJson, n: MoveJson) -> bool {
    &&& m.from == n.from
    &&& m.to == n.to
    &&& m.capture == n.capture
    &&& m.notation@ == n.notation@
    &&& m.value == n.value
    &&& exchanged(m.result, n.result)
}

/// The two answers are the same, with the colors exchanged: the same refusal
/// status, or the same analysis.
pub open spec fn same_answer(q: Result<AnalyzeResponse, ApiError>, r: Result<AnalyzeResponse, ApiError>) -> bool {
    match (q, r) {
        (Ok(a), Ok(b)) => {
            &&& a.phase@ == b.phase@
            &&& match (a.result, b.result) {
                (Some(x), Some(y)) => y.winner == x.winner.opposite() && x.reason@ == y.reason@,
                (None, None) => true,
                _ => false,
            }
            &&& a.value == b.value
            &&& a.moves@.len() == b.moves@.len()
            &&& forall|i: int| 0 <= i < a.moves@.len() ==> same_move(#[trigger] a.moves@[i], b.moves@[i])
            &&& a.engine_move == b.engine_move
        },
        (Err(e), Err(f)) => e.status == f.status,
        _ => false,
    }
}

/// Lists of the same points are the same.
proof fn lemma_points_alike(a: Seq<u8>, b: Seq<u8>)
    requires
        as_points(a) == as_points(b),
    ensures
        a == b,
{
    assert(as_points(a).len() == a.len() && as_points(b).len() == b.len());
    assert forall|i: int| 0 <= i < a.len() implies a[i] == b[i] by {
        assert(as_points(a)[i] == a[i] as int && as_points(b)[i] == b[i] as int);
    }
    assert(a =~= b);
}

/// Analyses of the same position with the turn exchanged are the same.
proof fn lemma_analyses_alike(
    evaluate: bool,
    pos: Position,
    db: &Database,
    a: AnalyzeResponse,
    b: AnalyzeResponse,
    turn: Color,
)
    requires
        pos.wf(),
        movement_analysis(a, evaluate, pos, turn, db),
        movement_analysis(b, evaluate, pos, turn.opposite(), db),
    ensures
        a.moves@.len() == b.moves@.len(),
        forall|i: int| 0 <= i < a.moves@.len() ==> same_move(#[trigger] a.moves@[i], b.moves@[i]),
        a.engine_move == b.engine_move,
{
    assert forall|i: int| 0 <= i < a.moves@.len() implies same_move(#[trigger] a.moves@[i], b.moves@[i]) by {
        let (m, n) = (a.moves@[i], b.moves@[i]);
        lemma_move_is_one(pos, succs(pos)[i], m.from->0, m.to, m.capture, n.from->0, n.to, n.capture);
        lemma_points_alike(n.result.white@, m.result.black@);
        lemma_points_alike(n.result.black@, m.result.white@);
    }
    successors_are_the_legal_moves(pos);
    let (k, l) = (a.engine_move->0, b.engine_move->0);
    let x = choose|code: int| best_choice(db, succs(pos), succs(pos)[k as int], code);
    let y = choose|code: int| best_choice(db, succs(pos), succs(pos)[l as int], code);
    lemma_choice_is_one(db, succs(pos), k as int, l as int, x, y);
}

/// Exchanging the colors and the turn in the movement phase changes nothing
/// but the colors in the answer.
pub proof fn answers_follow_the_colors(
    p: AnalyzeRequest,
    q: AnalyzeRequest,
    db: &Database,
    complete: bool,
    a: Result<AnalyzeResponse, ApiError>,
    b: Result<AnalyzeResponse, ApiError>,
)
    requires
        exchanged(p.state, q.state),
        !placing(p.state),
        p.evaluate == q.evaluate,
        answers(a, p, db, complete),
        answers(b, q, db, complete),
    ensures
        same_answer(a, b),
{
    colors_can_be_exchanged(p.state, q.state);
    if fault(p.state) is None {
        let s = p.state;
        let pos = placement_state(s).pos;
        lemma_valid(s);
        lemma_internal(mask_of(s.white@), mask_of(s.black@), s.turn);
        if goes_on(pos) && lacking(db, complete, pos) is None {
            lemma_analyses_alike(p.evaluate, pos, db, a->Ok_0, b->Ok_0, s.turn);
        }
    }
}

/// The result of every move can be analyzed in turn, and stands for the
/// successor.
pub proof fn results_can_be_analyzed(m: MoveJson, pos: Position, s: Position, turn: Color, value: Option<ValueJson>)
    requires
        pos.wf(),
        count(pos.w()) <= 9,
        count(pos.b()) <= 9,
        succs(pos).contains(s),
        movement_move(m, pos, s, turn, value),
    ensures
        fault(m.result) is None,
        !placing(m.result),
        placement_state(m.result).pos == s,
        m.result.turn == turn.opposite(),
{
    successors_are_the_legal_moves(pos);
    lemma_move_counts(pos, s);
    shown_states_read_back(m.result, s, turn.opposite(), 0, 0);
    lemma_shown_valid(m.result, s, turn.opposite(), 0, 0);
}

proof fn lemma_shown_valid(j: StateJson, s: Position, turn: Color, white_hand: u8, black_hand: u8)
    requires
        s.wf(),
        shows(j, s, turn, white_hand, black_hand),
    ensures
        side_fault(j.white@, "white"@) is None,
        side_fault(j.black@, "black"@) is None,
        !(exists|p: u8| #[trigger] j.white@.contains(p) && j.black@.contains(p)),
        j.white@.len() == count(if turn is White {
            s.w()
        } else {
            s.b()
        }),
        j.black@.len() == count(if turn is White {
            s.b()
        } else {
            s.w()
        }),
{
    lemma_halves_on_board(s);
    let (white, black) = match turn {
        Color::White => (s.w(), s.b()),
        Color::Black => (s.b(), s.w()),
    };
    lemma_list_of_set(j.white@, "white"@, white);
    lemma_list_of_set(j.black@, "black"@, black);
    lemma_overlap(j.white@, j.black@);
    lemma_disjoint(white, black);
}

/// The value of a move against the value of what it leads to, for the other
/// player: the outcome turned round, one ply more.
pub open spec fn one_ply_more(m: ValueJson, r: ValueJson) -> bool {
    match m.outcome {
        Outcome::Win => {
            &&& r.outcome == Outcome::Loss
            &&& m.plies matches Some(d) && d > 1 && r.plies == Some((d - 1) as u16)
        },
        Outcome::Loss => {
            &&& r.outcome == Outcome::Win
            &&& m.plies matches Some(d) && d > 1 && r.plies == Some((d - 1) as u16)
        },
        Outcome::Draw => r.outcome == Outcome::Draw && m.plies is None && r.plies is None,
    }
}

/// The value of a move matches the analysis of its result. Where the move ends
/// the game, by leaving fewer than three stones or no move, it wins in one ply,
/// and its player is the winner; else its value is one ply more than that of
/// the result, turned round. The database is to hold true values.
pub proof fn move_values_match_results(
    a: AnalyzeResponse,
    pos: Position,
    turn: Color,
    db: &Database,
    complete: bool,
    i: int,
    req: AnalyzeRequest,
    r: AnalyzeResponse,
)
    requires
        playable(pos),
        movement_analysis(a, true, pos, turn, db),
        0 <= i < a.moves@.len(),
        req.state == a.moves@[i].result,
        req.evaluate,
        answers(Ok(r), req, db, complete),
        count(succs(pos)[i].w()) >= 3 ==> db.worth(succs(pos)[i]) == game_value(succs(pos)[i]),
    ensures
        ({
            let m = a.moves@[i];
            match r.result {
                Some(x) => {
                    &&& m.value == Some(ValueJson { outcome: Outcome::Win, plies: Some(1) })
                    &&& x.winner == turn
                    &&& x.reason@ == if count(succs(pos)[i].w()) < 3 {
                        "fewerThanThree"@
                    } else {
                        "noMoves"@
                    }
                },
                None => m.value matches Some(v) && r.value matches Some(w) && one_ply_more(v, w),
            }
        }),
{
    let s = succs(pos)[i];
    assert(succs(pos).contains(s));
    results_can_be_analyzed(a.moves@[i], pos, s, turn, a.moves@[i].value);
    successors_are_the_legal_moves(pos);
    lemma_move_counts(pos, s);
    if count(s.w()) >= 3 {
        assert(playable(s));
        game_values_are_consistent(s);
        assert(reply_code(db, s) == db.code(s));
    }
}

/// The result of every placement can be analyzed in turn, and stands for the
/// successor.
pub proof fn placement_results_can_be_analyzed(
    state: StateJson,
    m: MoveJson,
    i: int,
    value: Option<ValueJson>,
)
    requires
        fault(state) is None,
        placing(state),
        0 <= i < next_states(placement_state(state)).len(),
        placement_move(m, placement_state(state), next_states(placement_state(state))[i], state.turn, value),
    ensures
        fault(m.result) is None,
        placement_state(m.result) == next_states(placement_state(state))[i],
        m.result.turn == state.turn.opposite(),
{
    let ps = placement_state(state);
    let s = next_states(ps)[i];
    lemma_valid(state);
    lemma_internal(mask_of(state.white@), mask_of(state.black@), state.turn);
    lemma_next_states(ps);
    lemma_placement_counts(ps.pos, s.pos);
    shown_states_read_back(m.result, s.pos, m.result.turn, m.result.white_hand, m.result.black_hand);
    lemma_shown_valid(m.result, s.pos, m.result.turn, m.result.white_hand, m.result.black_hand);
}

pub proof fn lemma_internal(white: u32, black: u32, turn: Color)
    requires
        on_board(white),
        on_board(black),
        disjoint(white, black),
    ensures
        internal(white, black, turn).wf(),
        turn is White ==> internal(white, black, turn).w() == white && internal(white, black, turn).b() == black,
        turn is Black ==> internal(white, black, turn).w() == black && internal(white, black, turn).b() == white,
{
    lemma_disjoint(white, black);
    lemma_pack(white, black);
    lemma_pack(black, white);
}

/// What a request asks for.
#[derive(Clone, Copy, PartialEq, Eq, Debug, Structural)]
pub enum Route {
    Page,
    Meta,
    Analyze,
    NotFound,
}

/// What a request asks for, by its method and path.
pub fn route(is_get: bool, is_post: bool, url: &str) -> (r: Route)
    ensures
        r == (if is_get && url@ == "/"@ {
            Route::Page
        } else if is_get && url@ == "/api/meta"@ {
            Route::Meta
        } else if is_post && url@ == "/api/analyze"@ {
            Route::Analyze
        } else {
            Route::NotFound
        }),
{
    if is_get && same_text(url, "/") {
        Route::Page
    } else if is_get && same_text(url, "/api/meta") {
        Route::Meta
    } else if is_post && same_text(url, "/api/analyze") {
        Route::Analyze
    } else {
        Route::NotFound
    }
}

} // verus!
