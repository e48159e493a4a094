//! What an analysis says of a game state: which states are taken, when the game
//! is over and who has won, which moves are listed, and how the values of a
//! state, of its moves and of what they lead to go together.

use vstd::prelude::*;

use crate::board::name_of;
use crate::database::{decode, Database};
use crate::game::Score;
use crate::index::{playable, slot_of, slots, slots_hold_canonical_forms, SubspaceId};
use crate::mask::{count, group_mask, lemma_disjoint, lemma_points_below, member, points};
use crate::movegen::{
    capture_edge, is_capture, placements, quiet_edge, removable, successors_are_the_legal_moves, succs,
};
use crate::opening::{
    every_placement_is_open, lemma_next_states, lemma_worth_range, next_states, worth,
    worth_is_the_best_reply, PlacementState,
};
use crate::play::{best_choice, first_best, reply_code, some_reply};
use crate::pos::Position;
use crate::rules::{
    generated_moves_are_the_legal_moves, generated_placements_are_the_legal_placements, has_a_way,
    rules_allow_move, rules_allow_placement, sides_move_while_they_can,
};
use crate::server::{
    answers, as_points, fault, is_move, lacking, lemma_choice_is_one, lemma_choice_place, lemma_internal,
    lemma_mask_of, lemma_move_is_one, lemma_valid, mask_of, outcome_of, placement_results_can_be_analyzed,
    placement_state, placing, ready, results_can_be_analyzed, shows, side_fault, AnalyzeRequest,
    AnalyzeResponse, ApiError, Color, MoveJson, Outcome, StateJson, ValueJson,
};
use crate::text::decimal;

verus! {

/// The points of one color are points of the board, and none is listed twice.
pub open spec fn proper_points(l: Seq<u8>) -> bool {
    &&& forall|i: int| 0 <= i < l.len() ==> #[trigger] l[i] < 24
    &&& forall|i: int, j: int| 0 <= i < j < l.len() ==> l[i] != l[j]
}

/// A state that can be: proper points, none of both colors; at most nine stones a
/// side, on the board and in hand; and hands that come of placing in turn, White
/// first.
pub open spec fn can_be(s: StateJson) -> bool {
    &&& proper_points(s.white@)
    &&& proper_points(s.black@)
    &&& forall|i: int, j: int| 0 <= i < s.white@.len() && 0 <= j < s.black@.len() ==> s.white@[i] != s.black@[j]
    &&& s.white@.len() + s.white_hand <= 9
    &&& s.black@.len() + s.black_hand <= 9
    &&& s.white_hand == 0 && s.black_hand == 0 || match s.turn {
        Color::White => s.black_hand == s.white_hand,
        Color::Black => s.black_hand == s.white_hand + 1,
    }
}

proof fn lemma_side_fault(l: Seq<u8>, color: Seq<char>)
    ensures
        side_fault(l, color) is None <==> proper_points(l),
    decreases l.len(),
{
    if l.len() > 0 {
        let (r, p) = (l.drop_last(), l.last());
        let n = l.len() - 1;
        lemma_side_fault(r, color);
        if proper_points(l) {
            assert forall|i: int| 0 <= i < r.len() implies #[trigger] r[i] < 24 by {
                assert(l[i] == r[i]);
            }
            assert forall|i: int, j: int| 0 <= i < j < r.len() implies r[i] != r[j] by {
                assert(l[i] == r[i] && l[j] == r[j]);
            }
            assert(l[n] < 24);
            if r.contains(p) {
                let i = r.index_of(p);
                assert(l[i] == l[n]);
            }
        }
        if side_fault(l, color) is None {
            assert forall|i: int| 0 <= i < l.len() implies #[trigger] l[i] < 24 by {
                if i < n {
                    assert(r[i] == l[i]);
                }
            }
            assert forall|i: int, j: int| 0 <= i < j < l.len() implies l[i] != l[j] by {
                if j < n {
                    assert(r[i] == l[i] && r[j] == l[j]);
                } else {
                    assert(r[i] == l[i]);
                    assert(r.contains(r[i]) || l[i] != l[j]);
                }
            }
        }
    }
}

/// Exactly the states that can be are taken.
pub proof fn states_that_can_be_are_taken(s: StateJson)
    ensures
        fault(s) is None <==> can_be(s),
{
    lemma_side_fault(s.white@, "white"@);
    lemma_side_fault(s.black@, "black"@);
    let (w, b) = (s.white@, s.black@);
    if exists|p: u8| #[trigger] w.contains(p) && b.contains(p) {
        let p = choose|p: u8| #[trigger] w.contains(p) && b.contains(p);
        let (i, j) = (w.index_of(p), b.index_of(p));
        assert(w[i] == b[j]);
    }
    if exists|i: int, j: int| 0 <= i < w.len() && 0 <= j < b.len() && w[i] == b[j] {
        let (i, j) = choose|i: int, j: int| 0 <= i < w.len() && 0 <= j < b.len() && w[i] == b[j];
        assert(w.contains(w[i]) && b.contains(b[j]));
        assert(w.contains(w[i]) && b.contains(w[i]));
    }
}

/// The first fault of a list of points is named: a point that is none, or one that
/// is listed again.
pub proof fn the_first_fault_of_a_side_is_named(l: Seq<u8>, color: Seq<char>)
    ensures
        side_fault(l, color) matches Some(m) ==> exists|i: int|
            {
                &&& 0 <= i < l.len()
                &&& proper_points(#[trigger] l.take(i))
                &&& {
                    ||| l[i] >= 24 && m == "point index "@ + decimal(l[i] as nat) + " out of range 0..24"@
                    ||| l[i] < 24 && l.take(i).contains(l[i]) && m == "duplicate "@ + color + " point "@ + decimal(
                        l[i] as nat,
                    )
                }
            },
    decreases l.len(),
{
    if l.len() > 0 {
        let (r, n) = (l.drop_last(), l.len() - 1);
        the_first_fault_of_a_side_is_named(r, color);
        assert(l.take(n) =~= r);
        if let Some(m) = side_fault(r, color) {
            let i = choose|i: int|
                {
                    &&& 0 <= i < r.len()
                    &&& proper_points(#[trigger] r.take(i))
                    &&& {
                        ||| r[i] >= 24 && m == "point index "@ + decimal(r[i] as nat) + " out of range 0..24"@
                        ||| r[i] < 24 && r.take(i).contains(r[i]) && m == "duplicate "@ + color + " point "@ + decimal(
                            r[i] as nat,
                        )
                    }
                };
            assert(l.take(i) =~= r.take(i));
            assert(l[i] == r[i]);
        } else {
            lemma_side_fault(r, color);
            assert(proper_points(l.take(n)));
        }
    }
}

/// A state stands for the position in which the side whose turn it is moves: its
/// stones are the mover's, those of the other color the opponent's, and the hands
/// go with them.
pub proof fn states_stand_for_positions(s: StateJson, p: int)
    requires
        fault(s) is None,
        0 <= p < 24,
    ensures
        ({
            let ps = placement_state(s);
            let (mine, theirs) = match s.turn {
                Color::White => (s.white@, s.black@),
                Color::Black => (s.black@, s.white@),
            };
            &&& ps.pos.wf()
            &&& member(ps.pos.w(), p) <==> mine.contains(p as u8)
            &&& member(ps.pos.b(), p) <==> theirs.contains(p as u8)
            &&& count(ps.pos.w()) == mine.len()
            &&& count(ps.pos.b()) == theirs.len()
            &&& match s.turn {
                Color::White => ps.mover_hand == s.white_hand && ps.opp_hand == s.black_hand,
                Color::Black => ps.mover_hand == s.black_hand && ps.opp_hand == s.white_hand,
            }
        }),
{
    lemma_valid(s);
    lemma_internal(mask_of(s.white@), mask_of(s.black@), s.turn);
    lemma_mask_of(s.white@, "white"@);
    lemma_mask_of(s.black@, "black"@);
}

/// The move is valued, without a depth, as the given outcome.
pub open spec fn valued(m: MoveJson, outcome: Outcome) -> bool {
    m.value == Some(ValueJson { outcome, plies: None })
}

/// In the placement phase the value of a state is that of its best move: a win if
/// some move wins, else a draw if some move draws, else a loss. The chosen move is
/// the first with that value.
pub proof fn placement_values_are_those_of_the_best_moves(
    req: AnalyzeRequest,
    db: &Database,
    complete: bool,
    a: AnalyzeResponse,
)
    requires
        fault(req.state) is None,
        placing(req.state),
        req.evaluate,
        answers(Ok(a), req, db, complete),
        a.result is None,
    ensures
        ({
            let l = a.moves@;
            let best = if exists|i: int| 0 <= i < l.len() && valued(#[trigger] l[i], Outcome::Win) {
                Outcome::Win
            } else if exists|i: int| 0 <= i < l.len() && valued(#[trigger] l[i], Outcome::Draw) {
                Outcome::Draw
            } else {
                Outcome::Loss
            };
            &&& a.value == Some(ValueJson { outcome: best, plies: None })
            &&& a.engine_move matches Some(k) && {
                &&& k < l.len()
                &&& valued(l[k as int], best)
                &&& forall|j: int| 0 <= j < k ==> !valued(#[trigger] l[j], best)
            }
        }),
{
    let s = req.state;
    let ps = placement_state(s);
    lemma_valid(s);
    lemma_internal(mask_of(s.white@), mask_of(s.black@), s.turn);
    let next = next_states(ps);
    let l = a.moves@;
    worth_is_the_best_reply(db, ps);
    lemma_next_states(ps);
    lemma_worth_range(db, ps);
    assert forall|i: int| 0 <= i < l.len() implies {
        &&& -1 <= worth(db, next[i]) <= 1
        &&& valued(#[trigger] l[i], outcome_of(-worth(db, next[i])))
    } by {
        lemma_worth_range(db, next[i]);
    }
    let i = choose|i: int| 0 <= i < next.len() && -worth(db, #[trigger] next[i]) == worth(db, ps);
    assert(valued(l[i], outcome_of(worth(db, ps))));
    assert forall|j: int| 0 <= j < l.len() && valued(#[trigger] l[j], Outcome::Win) implies worth(db, ps) == 1 by {
        assert(-worth(db, next[j]) <= worth(db, ps));
    }
    assert forall|j: int| 0 <= j < l.len() && valued(#[trigger] l[j], Outcome::Draw) implies worth(db, ps) >= 0 by {
        assert(-worth(db, next[j]) <= worth(db, ps));
    }
    let k = a.engine_move->0 as int;
    assert(first_best(db, next, k));
    assert(worth(db, next[k]) <= worth(db, next[i]));
    assert(-worth(db, next[k]) <= worth(db, ps));
    assert forall|j: int| 0 <= j < k implies !valued(#[trigger] l[j], outcome_of(worth(db, ps))) by {
        assert(worth(db, next[k]) < worth(db, next[j]));
    }
}

/// The outcome for the other player.
pub open spec fn turned_round(o: Outcome) -> Outcome {
    match o {
        Outcome::Win => Outcome::Loss,
        Outcome::Draw => Outcome::Draw,
        Outcome::Loss => Outcome::Win,
    }
}

/// In the placement phase the value of a move is that of the analysis of its
/// result, for the other player: turned round. Where the result is the end of the
/// game, whether in this phase or the next, the player of the move has won.
pub proof fn placement_move_values_match_results(
    req: AnalyzeRequest,
    db: &Database,
    complete: bool,
    a: AnalyzeResponse,
    i: int,
    next: AnalyzeRequest,
    q: Result<AnalyzeResponse, ApiError>,
)
    requires
        fault(req.state) is None,
        placing(req.state),
        req.evaluate,
        answers(Ok(a), req, db, complete),
        a.result is None,
        0 <= i < a.moves@.len(),
        next.state == a.moves@[i].result,
        next.evaluate,
        answers(q, next, db, complete),
    ensures
        q matches Ok(r) && match r.result {
            Some(x) => x.winner == req.state.turn && valued(a.moves@[i], Outcome::Win),
            None => r.value matches Some(v) && valued(a.moves@[i], turned_round(v.outcome)),
        },
{
    let s = req.state;
    let ps = placement_state(s);
    lemma_valid(s);
    lemma_internal(mask_of(s.white@), mask_of(s.black@), s.turn);
    lemma_next_states(ps);
    let t = next_states(ps)[i];
    placement_results_can_be_analyzed(s, a.moves@[i], i, a.moves@[i].value);
    crate::server::lemma_placement_counts(ps.pos, t.pos);
    lemma_worth_range(db, t);
    assert(placement_state(next.state) == t);
    assert(t.mover_stones() >= 3 ==> t.opp_stones() >= 3);
    if placing(next.state) {
        assert(t.in_hand() > 0);
        if t.mover_stones() >= 3 {
            worth_is_the_best_reply(db, t);
        }
    } else {
        assert(t.in_hand() == 0);
        crate::movegen::blocked_positions_have_no_move(t.pos);
        if t.mover_stones() >= 3 {
            assert(lacking(db, complete, t.pos) is None);
        }
    }
}

/// A side of a movement-phase state has a stone with a way to go.
pub open spec fn can_move(pos: Position) -> bool {
    exists|from: int, to: int| #[trigger] has_a_way(pos, from, to)
}

/// The game of a movement-phase state is over, and who has won and why: with
/// fewer than three stones a side has lost, the mover first; without a move the
/// mover has.
pub open spec fn movement_ending(pos: Position, turn: Color) -> Option<(Color, Seq<char>)> {
    let other = match turn {
        Color::White => Color::Black,
        Color::Black => Color::White,
    };
    if count(pos.w()) < 3 {
        Some((other, "fewerThanThree"@))
    } else if count(pos.b()) < 3 {
        Some((turn, "fewerThanThree"@))
    } else if !can_move(pos) {
        Some((other, "noMoves"@))
    } else {
        None
    }
}

/// The game of a placement-phase state is over: a side has fewer than three stones
/// left, on the board and in hand, and has lost, the mover first.
pub open spec fn placement_ending(ps: PlacementState, turn: Color) -> Option<(Color, Seq<char>)> {
    let other = match turn {
        Color::White => Color::Black,
        Color::Black => Color::White,
    };
    if count(ps.pos.w()) + ps.mover_hand < 3 {
        Some((other, "fewerThanThree"@))
    } else if count(ps.pos.b()) + ps.opp_hand < 3 {
        Some((turn, "fewerThanThree"@))
    } else {
        None
    }
}

/// The answer says that the game is over as given, and nothing else.
pub open spec fn says_over(q: Result<AnalyzeResponse, ApiError>, phase: Seq<char>, end: (Color, Seq<char>)) -> bool {
    q matches Ok(a) && {
        &&& a.phase@ == phase
        &&& a.result matches Some(x) && x.winner == end.0 && x.reason@ == end.1
        &&& a.value is None
        &&& a.moves@.len() == 0
        &&& a.engine_move is None
    }
}

/// An answer to a state in the movement phase says that the game is over exactly
/// when it is, with the right winner and reason.
pub proof fn movement_endings_are_told(
    req: AnalyzeRequest,
    db: &Database,
    complete: bool,
    q: Result<AnalyzeResponse, ApiError>,
)
    requires
        can_be(req.state),
        req.state.white_hand == 0,
        req.state.black_hand == 0,
        answers(q, req, db, complete),
    ensures
        match movement_ending(placement_state(req.state).pos, req.state.turn) {
            Some(end) => says_over(q, "movement"@, end),
            None => q matches Ok(a) ==> a.phase@ == "movement"@ && a.result is None,
        },
{
    let s = req.state;
    let pos = placement_state(s).pos;
    states_that_can_be_are_taken(s);
    lemma_valid(s);
    lemma_internal(mask_of(s.white@), mask_of(s.black@), s.turn);
    if count(pos.b()) > 0 {
        sides_move_while_they_can(pos);
    }
}

/// An answer to a state in the placement phase says that the game is over exactly
/// when it is. A partial database is refused before that is looked at.
pub proof fn placement_endings_are_told(
    req: AnalyzeRequest,
    db: &Database,
    complete: bool,
    q: Result<AnalyzeResponse, ApiError>,
)
    requires
        can_be(req.state),
        req.state.white_hand > 0 || req.state.black_hand > 0,
        answers(q, req, db, complete),
    ensures
        !complete <==> q is Err,
        q matches Err(e) ==> e.status == 409,
        complete ==> match placement_ending(placement_state(req.state), req.state.turn) {
            Some(end) => says_over(q, "placement"@, end),
            None => q matches Ok(a) && a.phase@ == "placement"@ && (next_states(placement_state(req.state)).len() > 0
                ==> a.result is None),
        },
{
    states_that_can_be_are_taken(req.state);
}

/// The answer is an error with the given status.
pub open spec fn has_status(q: Result<AnalyzeResponse, ApiError>, status: int) -> bool {
    q matches Err(e) && e.status == status
}

/// The database has a subspace.
pub open spec fn has_subspace(db: &Database, w: int, b: int) -> bool {
    db@.contains_key((w as u8, b as u8))
}

/// A request is refused exactly when its state cannot be, with status 400, or when
/// the database is partial and the analysis needs what is not there, with status
/// 409: everything in the placement phase; in the movement phase, while the game
/// goes on, the subspace of the state, that of its quiet moves, and that of its
/// captures, unless these end the game.
pub proof fn refusals(req: AnalyzeRequest, db: &Database, complete: bool, q: Result<AnalyzeResponse, ApiError>)
    requires
        answers(q, req, db, complete),
    ensures
        ({
            let s = req.state;
            let ps = placement_state(s);
            let (w, b) = (count(ps.pos.w()) as int, count(ps.pos.b()) as int);
            &&& has_status(q, 400) <==> !can_be(s)
            &&& has_status(q, 409) <==> can_be(s) && !complete && if s.white_hand > 0 || s.black_hand > 0 {
                true
            } else {
                movement_ending(ps.pos, s.turn) is None && !(has_subspace(db, w, b) && has_subspace(db, b, w) && (b > 3
                    ==> has_subspace(db, b - 1, w)))
            }
            &&& q is Err ==> has_status(q, 400) || has_status(q, 409)
        }),
{
    let s = req.state;
    let pos = placement_state(s).pos;
    states_that_can_be_are_taken(s);
    if can_be(s) {
        lemma_valid(s);
        lemma_internal(mask_of(s.white@), mask_of(s.black@), s.turn);
        if count(pos.b()) > 0 {
            sides_move_while_they_can(pos);
        }
    }
}

/// The stone that a move took, by what was there before and what is after.
pub open spec fn tells_the_capture(m: MoveJson, before: Position, after: Position) -> bool {
    match m.capture {
        Some(c) => {
            &&& member(before.b(), c as int) && !member(after.w(), c as int)
            &&& forall|q: int| #[trigger] member(before.b(), q) && q != c ==> member(after.w(), q)
        },
        None => forall|q: int| #[trigger] member(before.b(), q) <==> member(after.w(), q),
    }
}

/// The text of a move names its points.
pub open spec fn tells_its_name(m: MoveJson) -> bool {
    m.notation@ == (match m.from {
        Some(f) => name_of(f as int) + "-"@,
        None => Seq::empty(),
    }) + name_of(m.to as int) + (match m.capture {
        Some(c) => "x"@ + name_of(c as int),
        None => Seq::empty(),
    })
}

/// In the movement phase every legal move is listed once, with where it goes from
/// and to, what it takes, its name, and the state that it leads to, in which the
/// other color has the turn.
pub proof fn movement_analyses_list_the_legal_moves(
    req: AnalyzeRequest,
    db: &Database,
    complete: bool,
    a: AnalyzeResponse,
)
    requires
        can_be(req.state),
        req.state.white_hand == 0,
        req.state.black_hand == 0,
        answers(Ok(a), req, db, complete),
        a.result is None,
    ensures
        ({
            let pos = placement_state(req.state).pos;
            let l = a.moves@;
            &&& forall|i: int|
                0 <= i < l.len() ==> {
                    let m = #[trigger] l[i];
                    let s = placement_state(m.result).pos;
                    &&& can_be(m.result)
                    &&& m.result.white_hand == 0 && m.result.black_hand == 0
                    &&& m.result.turn != req.state.turn
                    &&& m.from matches Some(f) && rules_allow_move(pos, f as int, m.to as int, s)
                    &&& tells_the_capture(m, pos, s)
                    &&& tells_its_name(m)
                }
            &&& forall|from: int, to: int, s: Position|
                s.wf() && #[trigger] rules_allow_move(pos, from, to, s) ==> exists|i: int|
                    0 <= i < l.len() && placement_state((#[trigger] l[i]).result).pos == s
            &&& forall|i: int, j: int|
                0 <= i < j < l.len() ==> placement_state((#[trigger] l[i]).result).pos != placement_state(
                    (#[trigger] l[j]).result,
                ).pos
        }),
{
    broadcast use group_mask;
    let s = req.state;
    let pos = placement_state(s).pos;
    let l = a.moves@;
    states_that_can_be_are_taken(s);
    lemma_valid(s);
    lemma_internal(mask_of(s.white@), mask_of(s.black@), s.turn);
    successors_are_the_legal_moves(pos);
    lemma_disjoint(pos.w(), pos.b());
    assert forall|i: int| 0 <= i < l.len() implies {
        let m = #[trigger] l[i];
        let t = placement_state(m.result).pos;
        &&& t == succs(pos)[i]
        &&& can_be(m.result)
        &&& m.result.white_hand == 0 && m.result.black_hand == 0
        &&& m.result.turn != s.turn
        &&& m.from matches Some(f) && rules_allow_move(pos, f as int, m.to as int, t)
        &&& tells_the_capture(m, pos, t)
        &&& tells_its_name(m)
    } by {
        let m = l[i];
        let t = succs(pos)[i];
        assert(succs(pos).contains(t));
        results_can_be_analyzed(m, pos, t, s.turn, m.value);
        states_that_can_be_are_taken(m.result);
        let f = m.from->0;
        lemma_listed_move(pos, t, f, m.to, m.capture);
        assert(tells_its_name(m)) by {
            assert(m.notation@ =~= (name_of(f as int) + "-"@) + name_of(m.to as int) + (match m.capture {
                Some(c) => "x"@ + name_of(c as int),
                None => Seq::empty(),
            }));
        }
    }
    assert forall|from: int, to: int, t: Position| t.wf() && #[trigger] rules_allow_move(pos, from, to, t) implies exists|i: int|
        0 <= i < l.len() && placement_state((#[trigger] l[i]).result).pos == t by {
        generated_moves_are_the_legal_moves(pos, t);
        let i = succs(pos).index_of(t);
        assert(placement_state(l[i].result).pos == t);
    }
}

/// A move in its parts is a move of the rules, and tells its capture.
proof fn lemma_listed_move(pos: Position, t: Position, f: u8, to: u8, capture: Option<u8>)
    requires
        pos.wf(),
        t.wf(),
        is_move(pos, t, f, to, capture),
    ensures
        rules_allow_move(pos, f as int, to as int, t),
        match capture {
            Some(c) => {
                &&& member(pos.b(), c as int) && !member(t.w(), c as int)
                &&& forall|q: int| #[trigger] member(pos.b(), q) && q != c ==> member(t.w(), q)
            },
            None => forall|q: int| #[trigger] member(pos.b(), q) <==> member(t.w(), q),
        },
{
    broadcast use group_mask;
    successors_are_the_legal_moves(pos);
    match capture {
        None => {
            assert(quiet_edge(pos, t));
        },
        Some(c) => {
            assert(is_capture(pos, t, f as int, to as int, c as int));
            assert(removable(pos.b(), c as int));
            assert(capture_edge(pos, t));
        },
    }
    generated_moves_are_the_legal_moves(pos, t);
    let (x, y) = choose|x: int, y: int| #[trigger] rules_allow_move(pos, x, y, t);
    assert(member(t.b(), to as int) && !member(pos.w(), to as int));
    assert(member(pos.w(), f as int) && !member(t.b(), f as int));
    assert(member(t.b(), to as int) <==> to == y || member(pos.w(), to as int) && to != x);
    assert(member(t.b(), f as int) <==> f == y || member(pos.w(), f as int) && f != x);
    assert(x == f && y == to);
}

/// The value that a code gives the side to move: the draw code a draw, an odd code
/// a win and an even one a loss, in as many plies.
pub open spec fn value_of_code(c: u16) -> ValueJson {
    if c == 0xffff {
        ValueJson { outcome: Outcome::Draw, plies: None }
    } else if c % 2 == 1 {
        ValueJson { outcome: Outcome::Win, plies: Some(c) }
    } else {
        ValueJson { outcome: Outcome::Loss, plies: Some(c) }
    }
}

/// The value of a move by the code of what it leads to: the other player's, turned
/// round and one ply more.
pub open spec fn value_before_code(c: u16) -> ValueJson {
    if c == 0xffff {
        ValueJson { outcome: Outcome::Draw, plies: None }
    } else if c % 2 == 1 {
        ValueJson { outcome: Outcome::Loss, plies: Some((c + 1) as u16) }
    } else {
        ValueJson { outcome: Outcome::Win, plies: Some((c + 1) as u16) }
    }
}

/// The code that the database holds for a position, in the array of its stone
/// counts, at its slot.
pub open spec fn held_code(db: &Database, pos: Position) -> u16 {
    db@[(count(pos.w()) as u8, count(pos.b()) as u8)][slot_of(pos) as int]
}

/// In the movement phase the values go by the codes of the database: that of a
/// state by its own, that of a move by the code of what it leads to, and a move
/// that leaves fewer than three stones wins at once. Without `evaluate` there are
/// none.
pub proof fn movement_values_go_by_the_codes(
    req: AnalyzeRequest,
    db: &Database,
    complete: bool,
    a: AnalyzeResponse,
    i: int,
)
    requires
        can_be(req.state),
        req.state.white_hand == 0,
        req.state.black_hand == 0,
        answers(Ok(a), req, db, complete),
        a.result is None,
        0 <= i < a.moves@.len(),
    ensures
        ({
            let pos = placement_state(req.state).pos;
            let m = a.moves@[i];
            let s = placement_state(m.result).pos;
            if req.evaluate {
                &&& a.value == Some(value_of_code(held_code(db, pos)))
                &&& m.value == Some(
                    if count(s.w()) < 3 {
                        ValueJson { outcome: Outcome::Win, plies: Some(1) }
                    } else {
                        value_before_code(held_code(db, s))
                    },
                )
            } else {
                a.value is None && m.value is None
            }
        }),
{
    lemma_listed_results(req, db, complete, a, i);
}

/// Move `i` leads to successor `i`.
proof fn lemma_listed_results(req: AnalyzeRequest, db: &Database, complete: bool, a: AnalyzeResponse, i: int)
    requires
        can_be(req.state),
        req.state.white_hand == 0,
        req.state.black_hand == 0,
        answers(Ok(a), req, db, complete),
        a.result is None,
        0 <= i < a.moves@.len(),
    ensures
        placement_state(req.state).pos.wf(),
        count(placement_state(req.state).pos.w()) <= 9,
        count(placement_state(req.state).pos.b()) <= 9,
        a.moves@.len() == succs(placement_state(req.state).pos).len(),
        placement_state(a.moves@[i].result).pos == succs(placement_state(req.state).pos)[i],
{
    let s = req.state;
    let pos = placement_state(s).pos;
    states_that_can_be_are_taken(s);
    lemma_valid(s);
    lemma_internal(mask_of(s.white@), mask_of(s.black@), s.turn);
    let t = succs(pos)[i];
    assert(succs(pos).contains(t));
    results_can_be_analyzed(a.moves@[i], pos, t, s.turn, a.moves@[i].value);
}

/// Value `v` is better for its player than `w`, in a way that shows: a win before a
/// draw before a loss; a faster win, a slower loss.
pub open spec fn better(v: ValueJson, w: ValueJson) -> bool {
    match (v.outcome, w.outcome) {
        (Outcome::Win, Outcome::Win) => v.plies->0 < w.plies->0,
        (Outcome::Loss, Outcome::Loss) => v.plies->0 > w.plies->0,
        (Outcome::Win, _) => true,
        (Outcome::Draw, Outcome::Loss) => true,
        _ => false,
    }
}

/// In the movement phase the chosen move is the first of the best: no move is better,
/// and every move before it is worse.
pub proof fn the_chosen_move_is_the_first_of_the_best(
    req: AnalyzeRequest,
    db: &Database,
    complete: bool,
    a: AnalyzeResponse,
    j: int,
)
    requires
        can_be(req.state),
        req.state.white_hand == 0,
        req.state.black_hand == 0,
        req.evaluate,
        answers(Ok(a), req, db, complete),
        a.result is None,
        0 <= j < a.moves@.len(),
    ensures
        a.engine_move matches Some(k) && k < a.moves@.len() && {
            let (v, w) = (a.moves@[k as int].value->0, a.moves@[j].value->0);
            &&& !better(w, v)
            &&& j < k ==> better(v, w)
        },
{
    let pos = placement_state(req.state).pos;
    let l = succs(pos);
    let k = a.engine_move->0 as int;
    lemma_listed_results(req, db, complete, a, j);
    lemma_listed_results(req, db, complete, a, k);
    successors_are_the_legal_moves(pos);
    let code = choose|code: int| best_choice(db, l, l[k], code);
    let p = lemma_choice_place(db, l, l[k], code);
    assert(l[p] == l[k]);
    assert(p == k);
    let (win, draw) = (|r: Score| r is Loss, |r: Score| r is Draw);
    let (c, d) = (reply_code(db, l[k]), reply_code(db, l[j]));
    assert(win(decode(reply_code(db, l[j]))) ==> some_reply(db, l, win));
    assert(draw(decode(reply_code(db, l[j]))) ==> some_reply(db, l, draw));
    assert(win(decode(reply_code(db, l[k]))) ==> some_reply(db, l, win));
    assert(draw(decode(reply_code(db, l[k]))) ==> some_reply(db, l, draw));
}

/// Asking for values changes neither the moves nor the choice.
pub proof fn values_do_not_change_the_choice(
    p: AnalyzeRequest,
    q: AnalyzeRequest,
    db: &Database,
    complete: bool,
    a: AnalyzeResponse,
    b: AnalyzeResponse,
)
    requires
        can_be(p.state),
        p.state == q.state,
        answers(Ok(a), p, db, complete),
        answers(Ok(b), q, db, complete),
        p.evaluate,
        placing(q.state) ==> q.engine,
    ensures
        a.engine_move == b.engine_move,
        a.moves@.len() == b.moves@.len(),
        forall|i: int|
            0 <= i < a.moves@.len() ==> {
                let (m, n) = (#[trigger] a.moves@[i], b.moves@[i]);
                m.from == n.from && m.to == n.to && m.capture == n.capture && m.notation@ == n.notation@
            },
{
    broadcast use group_mask;
    let s = p.state;
    let ps = placement_state(s);
    states_that_can_be_are_taken(s);
    lemma_valid(s);
    lemma_internal(mask_of(s.white@), mask_of(s.black@), s.turn);
    if a.result is None {
        if placing(s) {
            assert forall|i: int| 0 <= i < a.moves@.len() implies {
                let (m, n) = (#[trigger] a.moves@[i], b.moves@[i]);
                m.from == n.from && m.to == n.to && m.capture == n.capture && m.notation@ == n.notation@
            } by {
                let (m, n) = (a.moves@[i], b.moves@[i]);
                let t = next_states(ps)[i];
                lemma_next_states(ps);
                assert(member(t.pos.b(), m.to as int) && !member(ps.pos.w(), m.to as int));
                if let Some(c) = m.capture {
                    assert(member(ps.pos.b(), c as int) && !member(t.pos.w(), c as int));
                }
                if let Some(c) = n.capture {
                    assert(member(ps.pos.b(), c as int) && !member(t.pos.w(), c as int));
                }
            }
            let (k, l) = (a.engine_move->0 as int, b.engine_move->0 as int);
            let next = next_states(ps);
            assert(first_best(db, next, k) && first_best(db, next, l));
            if k < l {
                assert(worth(db, next[l]) < worth(db, next[k]));
                assert(worth(db, next[k]) <= worth(db, next[l]));
            }
            if l < k {
                assert(worth(db, next[k]) < worth(db, next[l]));
                assert(worth(db, next[l]) <= worth(db, next[k]));
            }
        } else {
            let pos = ps.pos;
            assert forall|i: int| 0 <= i < a.moves@.len() implies {
                let (m, n) = (#[trigger] a.moves@[i], b.moves@[i]);
                m.from == n.from && m.to == n.to && m.capture == n.capture && m.notation@ == n.notation@
            } by {
                let (m, n) = (a.moves@[i], b.moves@[i]);
                lemma_move_is_one(pos, succs(pos)[i], m.from->0, m.to, m.capture, n.from->0, n.to, n.capture);
            }
            successors_are_the_legal_moves(pos);
            let l = succs(pos);
            let (k, j) = (a.engine_move->0 as int, b.engine_move->0 as int);
            let x = choose|code: int| best_choice(db, l, l[k], code);
            let y = choose|code: int| best_choice(db, l, l[j], code);
            lemma_choice_is_one(db, l, k, j, x, y);
        }
    }
}

/// In the placement phase every legal placement is listed once, with its point,
/// what it takes, its name, and the state that it leads to: one stone less in the
/// hand of the player, and the turn passed.
pub proof fn placement_analyses_list_the_legal_placements(
    req: AnalyzeRequest,
    db: &Database,
    complete: bool,
    a: AnalyzeResponse,
)
    requires
        can_be(req.state),
        placing(req.state),
        answers(Ok(a), req, db, complete),
        a.result is None,
    ensures
        ({
            let ps = placement_state(req.state);
            let l = a.moves@;
            &&& forall|i: int|
                0 <= i < l.len() ==> {
                    let m = #[trigger] l[i];
                    let t = placement_state(m.result);
                    &&& can_be(m.result)
                    &&& m.result.turn != req.state.turn
                    &&& match req.state.turn {
                        Color::White => m.result.white_hand + 1 == req.state.white_hand && m.result.black_hand
                            == req.state.black_hand,
                        Color::Black => m.result.black_hand + 1 == req.state.black_hand && m.result.white_hand
                            == req.state.white_hand,
                    }
                    &&& m.from is None
                    &&& rules_allow_placement(ps.pos, m.to as int, t.pos)
                    &&& tells_the_capture(m, ps.pos, t.pos)
                    &&& tells_its_name(m)
                }
            &&& forall|to: int, s: Position|
                s.wf() && #[trigger] rules_allow_placement(ps.pos, to, s) ==> exists|i: int|
                    0 <= i < l.len() && placement_state((#[trigger] l[i]).result).pos == s
            &&& forall|i: int, j: int|
                0 <= i < j < l.len() ==> placement_state((#[trigger] l[i]).result) != placement_state(
                    (#[trigger] l[j]).result,
                )
        }),
{
    broadcast use group_mask;
    let s = req.state;
    let ps = placement_state(s);
    let l = a.moves@;
    let next = next_states(ps);
    states_that_can_be_are_taken(s);
    lemma_valid(s);
    lemma_internal(mask_of(s.white@), mask_of(s.black@), s.turn);
    lemma_next_states(ps);
    every_placement_is_open(ps, ps.pos);
    assert forall|i: int| 0 <= i < l.len() implies {
        let m = #[trigger] l[i];
        let t = placement_state(m.result);
        &&& t == next[i]
        &&& can_be(m.result)
        &&& m.result.turn != s.turn
        &&& match s.turn {
            Color::White => m.result.white_hand + 1 == s.white_hand && m.result.black_hand == s.black_hand,
            Color::Black => m.result.black_hand + 1 == s.black_hand && m.result.white_hand == s.white_hand,
        }
        &&& m.from is None
        &&& rules_allow_placement(ps.pos, m.to as int, t.pos)
        &&& tells_the_capture(m, ps.pos, t.pos)
        &&& tells_its_name(m)
    } by {
        let m = l[i];
        let t = next[i];
        assert(placements(ps.pos.w(), ps.pos.b()).contains(t.pos));
        placement_results_can_be_analyzed(s, m, i, m.value);
        states_that_can_be_are_taken(m.result);
        generated_placements_are_the_legal_placements(ps.pos, t.pos);
        let to = choose|to: int| #[trigger] rules_allow_placement(ps.pos, to, t.pos);
        assert(member(t.pos.b(), m.to as int) && !member(ps.pos.w(), m.to as int));
        assert(member(t.pos.b(), m.to as int) <==> m.to == to || member(ps.pos.w(), m.to as int));
        assert(to == m.to);
        if let Some(c) = m.capture {
            assert(removable(ps.pos.b(), c as int));
        }
        assert(m.notation@ =~= Seq::<char>::empty() + name_of(m.to as int) + (match m.capture {
            Some(c) => "x"@ + name_of(c as int),
            None => Seq::empty(),
        }));
    }
    assert forall|to: int, t: Position| t.wf() && #[trigger] rules_allow_placement(ps.pos, to, t) implies exists|i: int|
        0 <= i < l.len() && placement_state((#[trigger] l[i]).result).pos == t by {
        generated_placements_are_the_legal_placements(ps.pos, t);
        every_placement_is_open(ps, t);
        let u = choose|u: PlacementState| #[trigger] next.contains(u) && u.pos == t;
        let i = next.index_of(u);
        assert(placement_state(l[i].result).pos == t);
    }
}

/// In a database that is ready every position of the movement phase can be looked up, if
/// it is complete; else every position of a subspace that is there.
pub proof fn ready_databases_hold_every_position(db: &Database, complete: bool, p: Position)
    requires
        ready(db, complete),
        playable(p),
        complete || has_subspace(db, count(p.w()) as int, count(p.b()) as int),
    ensures
        has_subspace(db, count(p.w()) as int, count(p.b()) as int),
        slot_of(p) < db@[(count(p.w()) as u8, count(p.b()) as u8)].len(),
{
    let sub = SubspaceId { w: count(p.w()) as u8, b: count(p.b()) as u8 };
    assert(sub.wf());
    slots_hold_canonical_forms(p);
}

/// A state that shows a position lists the stones of each color once, in ascending order.
pub proof fn shown_points_go_up(s: StateJson, pos: Position, turn: Color, white_hand: u8, black_hand: u8, p: int)
    requires
        pos.wf(),
        shows(s, pos, turn, white_hand, black_hand),
        0 <= p < 24,
    ensures
        forall|i: int, j: int| 0 <= i < j < s.white@.len() ==> s.white@[i] < s.white@[j],
        forall|i: int, j: int| 0 <= i < j < s.black@.len() ==> s.black@[i] < s.black@[j],
        turn is White ==> (s.white@.contains(p as u8) <==> member(pos.w(), p)) && (s.black@.contains(p as u8) <==> member(
            pos.b(),
            p,
        )),
        turn is Black ==> (s.black@.contains(p as u8) <==> member(pos.w(), p)) && (s.white@.contains(p as u8) <==> member(
            pos.b(),
            p,
        )),
        s.turn == turn,
        s.white_hand == white_hand,
        s.black_hand == black_hand,
{
    let (white, black) = match turn {
        Color::White => (pos.w(), pos.b()),
        Color::Black => (pos.b(), pos.w()),
    };
    lemma_points_go_up(s.white@, white, p);
    lemma_points_go_up(s.black@, black, p);
}

proof fn lemma_points_go_up(l: Seq<u8>, m: u32, p: int)
    requires
        as_points(l) == points(m),
        0 <= p < 24,
    ensures
        forall|i: int, j: int| 0 <= i < j < l.len() ==> l[i] < l[j],
        l.contains(p as u8) <==> member(m, p),
{
    lemma_points_below(m, 32);
    let q = as_points(l);
    assert(q.len() == l.len());
    assert forall|i: int, j: int| 0 <= i < j < l.len() implies l[i] < l[j] by {
        assert(q[i] == l[i] && q[j] == l[j]);
        assert(points(m)[i] < points(m)[j]);
    }
    if l.contains(p as u8) {
        let i = l.index_of(p as u8);
        assert(q[i] == p);
        assert(points(m).contains(p));
    }
    if member(m, p) {
        assert(points(m).contains(p));
        let i = points(m).index_of(p);
        assert(q[i] == l[i] as int);
        assert(l[i] == p as u8);
    }
}

/// The first fault of a state is told, in this order: the points of White, those of Black, a
/// point of both, a hand of more than nine, more than nine stones of White, of Black, and
/// hands that do not come of placing in turn.
pub proof fn faults_are_told_in_order(s: StateJson)
    ensures
        fault(s) == if !proper_points(s.white@) {
            side_fault(s.white@, "white"@)
        } else if !proper_points(s.black@) {
            side_fault(s.black@, "black"@)
        } else if exists|i: int, j: int|
            0 <= i < s.white@.len() && 0 <= j < s.black@.len() && #[trigger] s.white@[i] == #[trigger] s.black@[j] {
            Some("white and black occupy the same point"@)
        } else if s.white_hand > 9 || s.black_hand > 9 {
            Some("hand count exceeds 9"@)
        } else if s.white@.len() + s.white_hand > 9 {
            Some("white has more than 9 total stones (board + hand)"@)
        } else if s.black@.len() + s.black_hand > 9 {
            Some("black has more than 9 total stones (board + hand)"@)
        } else if !can_be(s) {
            Some("hand counts are inconsistent with strict placement alternation"@)
        } else {
            None
        },
{
    let (w, b) = (s.white@, s.black@);
    lemma_side_fault(w, "white"@);
    lemma_side_fault(b, "black"@);
    if exists|p: u8| #[trigger] w.contains(p) && b.contains(p) {
        let p = choose|p: u8| #[trigger] w.contains(p) && b.contains(p);
        let (i, j) = (w.index_of(p), b.index_of(p));
        assert(w[i] == b[j]);
    }
    if exists|i: int, j: int| 0 <= i < w.len() && 0 <= j < b.len() && #[trigger] w[i] == #[trigger] b[j] {
        let (i, j) = choose|i: int, j: int| 0 <= i < w.len() && 0 <= j < b.len() && #[trigger] w[i] == #[trigger] b[j];
        assert(w.contains(w[i]) && b.contains(b[j]));
        assert(w.contains(w[i]) && b.contains(w[i]));
    }
}

/// A refusal for want of a subspace names it: that of the state, else that of its quiet
/// moves, else that of its captures, whichever is the first that is missing.
pub proof fn refusals_name_what_is_missing(req: AnalyzeRequest, db: &Database, complete: bool, e: ApiError)
    requires
        can_be(req.state),
        answers(Err(e), req, db, complete),
    ensures
        ({
            let s = req.state;
            let pos = placement_state(s).pos;
            let (w, b) = (count(pos.w()) as int, count(pos.b()) as int);
            let (x, y) = if !has_subspace(db, w, b) {
                (w, b)
            } else if !has_subspace(db, b, w) {
                (b, w)
            } else {
                (b - 1, w)
            };
            &&& e.status == 409
            &&& e.message@ == if s.white_hand > 0 || s.black_hand > 0 {
                "placement analysis requires the complete 49-subspace database (the opening search can reach nearly any material split)"@
            } else {
                "subspace ("@ + decimal(x as nat) + ","@ + decimal(y as nat)
                    + ") is not loaded (partial database) -- this analysis needs it"@
            }
        }),
{
    states_that_can_be_are_taken(req.state);
}

/// A database is ready exactly when each of the 49 subspaces has a value for every slot:
/// all of them if it is complete, else those that are there.
pub proof fn databases_are_ready_when_all_is_there(db: &Database, complete: bool)
    ensures
        ready(db, complete) <==> forall|sub: SubspaceId| #[trigger]
            sub.wf() ==> if db@.contains_key((sub.w, sub.b)) {
                slots(sub) <= db@[(sub.w, sub.b)].len()
            } else {
                !complete
            },
{
    if forall|sub: SubspaceId| #[trigger]
        sub.wf() ==> if db@.contains_key((sub.w, sub.b)) {
            slots(sub) <= db@[(sub.w, sub.b)].len()
        } else {
            !complete
        } {
        assert forall|sub: SubspaceId| #[trigger]
            sub.wf() && (complete || db@.contains_key((sub.w, sub.b))) implies db.covers(sub.w as nat, sub.b as nat) by {}
    }
    if ready(db, complete) {
        assert forall|sub: SubspaceId| #[trigger] sub.wf() implies if db@.contains_key((sub.w, sub.b)) {
            slots(sub) <= db@[(sub.w, sub.b)].len()
        } else {
            !complete
        } by {
            if complete || db@.contains_key((sub.w, sub.b)) {
                assert(db.covers(sub.w as nat, sub.b as nat));
            }
        }
    }
}

} // verus!
