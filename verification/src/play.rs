//! Perfect-play move selection: a winning move of least depth if there is
//! one, else a drawing move, else the losing move of greatest depth. It covers
//! both phases: movement, by the solved database, and placement, by the
//! opening search.

use vstd::prelude::*;

use crate::board::{column, row, N};
use crate::database::{decode, Database, DRAW};
use crate::game::{minimax, Score};
use crate::index::{playable, slot_of};
use crate::mask::{contains, count, member};
use crate::movegen::{successors, successors_are_the_legal_moves, succs};
use crate::opening::{
    all_covered, grown, hand_bound, in_range, lemma_grown, lemma_next_states, lemma_worth_range, negamax,
    next_states, searches_keep_tables_storable, tt_sound, worth, worth_is_the_best_reply, PlacementState,
    Tt,
};
use crate::opening_cache::storable;
use crate::pos::{stone_char, Position};
use crate::truth::{game_value, game_values_are_consistent, lemma_minimax_agrees};
use crate::verify::encode;

verus! {

/// A chosen move: the position it leads to, and the value of the position it
/// came from.
#[derive(Debug)]
pub struct Choice<S> {
    pub successor: S,
    pub value_code: u16,
}

/// The code of a successor for the side that is to move in it: lost with fewer
/// than three stones, else as registered.
pub open spec fn reply_code(db: &Database, s: Position) -> u16 {
    if count(s.w()) < 3 {
        0
    } else {
        db.code(s)
    }
}

/// Every successor of `pos` with three stones to move can be looked up.
pub open spec fn replies_covered(db: &Database, pos: Position) -> bool {
    forall|s: Position| #[trigger]
        succs(pos).contains(s) && count(s.w()) >= 3 ==> db.covers(count(s.w()), count(s.b()))
}

/// Successor `i` is the first that is lost for the opponent in the fewest plies.
pub open spec fn first_win(db: &Database, l: Seq<Position>, i: int) -> bool {
    &&& 0 <= i < l.len()
    &&& decode(reply_code(db, l[i])) is Loss
    &&& forall|j: int|
        0 <= j < l.len() && decode(reply_code(db, #[trigger] l[j])) is Loss ==> if j < i {
            reply_code(db, l[i]) < reply_code(db, l[j])
        } else {
            reply_code(db, l[i]) <= reply_code(db, l[j])
        }
}

/// Successor `i` is the first that is drawn.
pub open spec fn first_draw(db: &Database, l: Seq<Position>, i: int) -> bool {
    &&& 0 <= i < l.len()
    &&& decode(reply_code(db, l[i])) is Draw
    &&& forall|j: int| 0 <= j < i ==> !(decode(reply_code(db, #[trigger] l[j])) is Draw)
}

/// Successor `i` is the first that is won for the opponent in the most plies.
pub open spec fn first_loss(db: &Database, l: Seq<Position>, i: int) -> bool {
    &&& 0 <= i < l.len()
    &&& decode(reply_code(db, l[i])) is Win
    &&& forall|j: int|
        0 <= j < l.len() && decode(reply_code(db, #[trigger] l[j])) is Win ==> if j < i {
            reply_code(db, l[j]) < reply_code(db, l[i])
        } else {
            reply_code(db, l[j]) <= reply_code(db, l[i])
        }
}

/// Some successor has the given outcome for the side that is to move in it.
pub open spec fn some_reply(db: &Database, l: Seq<Position>, outcome: spec_fn(Score) -> bool) -> bool {
    exists|j: int| 0 <= j < l.len() && outcome(decode(reply_code(db, #[trigger] l[j])))
}

/// The choice to make among the successors `l`.
pub open spec fn best_choice(db: &Database, l: Seq<Position>, s: Position, code: int) -> bool {
    if some_reply(db, l, |r: Score| r is Loss) {
        exists|i: int| #[trigger] first_win(db, l, i) && s == l[i] && code == reply_code(db, l[i]) + 1
    } else if some_reply(db, l, |r: Score| r is Draw) {
        exists|i: int| #[trigger] first_draw(db, l, i) && s == l[i] && code == DRAW
    } else {
        exists|i: int| #[trigger] first_loss(db, l, i) && s == l[i] && code == reply_code(db, l[i]) + 1
    }
}

/// Pick the best movement-phase successor of `pos`. `None` if `pos` has no
/// legal move, which is a loss.
pub fn best_movement_move(pos: Position, db: &Database) -> (r: Option<Choice<Position>>)
    requires
        pos.wf(),
        replies_covered(db, pos),
    ensures
        match r {
            Some(c) => succs(pos).len() > 0 && best_choice(db, succs(pos), c.successor, c.value_code as int),
            None => succs(pos).len() == 0,
        },
{
    let next: Vec<Position> = successors(pos);
    if next.len() == 0 {
        return None;
    }
    proof {
        successors_are_the_legal_moves(pos);
    }
    let mut win: Option<(u16, usize)> = None;
    let mut draw: Option<usize> = None;
    let mut loss: Option<(u16, usize)> = None;
    let mut i: usize = 0;
    while i < next.len()
        invariant
            i <= next.len(),
            next@ == succs(pos),
            pos.wf(),
            replies_covered(db, pos),
            forall|s: Position| #[trigger] succs(pos).contains(s) ==> s.wf(),
            match win {
                Some((d, k)) => {
                    &&& k < i
                    &&& d == reply_code(db, next@[k as int]) + 1
                    &&& first_win(db, next@.take(i as int), k as int)
                },
                None => forall|j: int| 0 <= j < i ==> !(decode(reply_code(db, #[trigger] next@[j])) is Loss),
            },
            match draw {
                Some(k) => k < i && first_draw(db, next@, k as int),
                None => forall|j: int| 0 <= j < i ==> !(decode(reply_code(db, #[trigger] next@[j])) is Draw),
            },
            match loss {
                Some((d, k)) => {
                    &&& k < i
                    &&& d == reply_code(db, next@[k as int]) + 1
                    &&& first_loss(db, next@.take(i as int), k as int)
                },
                None => forall|j: int| 0 <= j < i ==> !(decode(reply_code(db, #[trigger] next@[j])) is Win),
            },
        decreases next.len() - i,
    {
        let s: Position = next[i];
        assert(succs(pos).contains(s));
        let ghost (before, after) = (next@.take(i as int), next@.take(i + 1));
        proof {
            assert(forall|j: int| 0 <= j < i ==> before[j] == next@[j] && #[trigger] after[j] == next@[j]);
            assert(after[i as int] == s);
        }
        let code: u16 = if s.white_count() < 3 {
            0
        } else {
            db.lookup_pos(s)
        };
        if code == DRAW {
            if draw.is_none() {
                draw = Some(i);
            }
        } else if code % 2 == 0 {
            let d: u16 = code + 1;
            let better: bool = match win {
                None => true,
                Some((e, _)) => d < e,
            };
            if better {
                win = Some((d, i));
            }
        } else {
            let d: u16 = code + 1;
            let better: bool = match loss {
                None => true,
                Some((e, _)) => d > e,
            };
            if better {
                loss = Some((d, i));
            }
        }
        proof {
            if let Some((d, k)) = win {
                assert forall|j: int| 0 <= j < after.len() && decode(reply_code(db, #[trigger] after[j])) is Loss implies if j < k {
                    reply_code(db, after[k as int]) < reply_code(db, after[j])
                } else {
                    reply_code(db, after[k as int]) <= reply_code(db, after[j])
                } by {
                    if j < i {
                        assert(before[j] == after[j]);
                    }
                    if k < i {
                        assert(before[k as int] == after[k as int]);
                    }
                }
                assert(first_win(db, after, k as int));
            }
            if let Some((d, k)) = loss {
                assert forall|j: int| 0 <= j < after.len() && decode(reply_code(db, #[trigger] after[j])) is Win implies if j < k {
                    reply_code(db, after[j]) < reply_code(db, after[k as int])
                } else {
                    reply_code(db, after[j]) <= reply_code(db, after[k as int])
                } by {
                    if j < i {
                        assert(before[j] == after[j]);
                    }
                    if k < i {
                        assert(before[k as int] == after[k as int]);
                    }
                }
                assert(first_loss(db, after, k as int));
            }
        }
        i = i + 1;
    }
    proof {
        assert(next@.take(i as int) =~= next@);
    }
    if let Some((d, k)) = win {
        assert(decode(reply_code(db, next@[k as int])) is Loss);
        return Some(Choice { successor: next[k], value_code: d });
    }
    if let Some(k) = draw {
        assert(decode(reply_code(db, next@[k as int])) is Draw);
        return Some(Choice { successor: next[k], value_code: DRAW });
    }
    match loss {
        Some((d, k)) => {
            assert(first_loss(db, next@, k as int));
            Some(Choice { successor: next[k], value_code: d })
        },
        None => {
            assert(!(decode(reply_code(db, next@[0])) is Win));
            assert(!(decode(reply_code(db, next@[0])) is Loss));
            assert(!(decode(reply_code(db, next@[0])) is Draw));
            None
        },
    }
}

/// The worth of a successor for the side that is to move in it.
pub open spec fn reply_worth(db: &Database, s: Position) -> Score {
    decode(reply_code(db, s))
}

/// Perfect play counts down: the chosen move has the value that the successors
/// make of the position, and leads to a successor with one ply less to go.
pub proof fn perfect_play_counts_down(db: &Database, pos: Position, s: Position, code: int, r: Score)
    requires
        succs(pos).len() > 0,
        minimax(pos, |t: Position| reply_worth(db, t), r),
        best_choice(db, succs(pos), s, code),
    ensures
        code == encode(r),
        match r {
            Score::Win(d) => reply_worth(db, s) == Score::Loss((d - 1) as nat),
            Score::Loss(d) => reply_worth(db, s) == Score::Win((d - 1) as nat),
            Score::Draw => reply_worth(db, s) is Draw,
        },
{
    let l = succs(pos);
    let w = |t: Position| reply_worth(db, t);
    match r {
        Score::Win(d) => {
            let t = choose|t: Position| l.contains(t) && #[trigger] w(t) == Score::Loss((d - 1) as nat);
            let j = choose|j: int| 0 <= j < l.len() && l[j] == t;
            assert(decode(reply_code(db, l[j])) is Loss);
            let i = choose|i: int| #[trigger] first_win(db, l, i) && s == l[i] && code == reply_code(db, l[i]) + 1;
            assert(l.contains(l[i]));
            assert(w(l[i]) is Loss);
        },
        Score::Loss(d) => {
            assert forall|j: int| 0 <= j < l.len() implies decode(reply_code(db, #[trigger] l[j])) is Win by {
                assert(l.contains(l[j]));
                assert(w(l[j]) is Win);
            }
            let t = choose|t: Position| l.contains(t) && #[trigger] w(t) == Score::Win((d - 1) as nat);
            let j = choose|j: int| 0 <= j < l.len() && l[j] == t;
            let i = choose|i: int| #[trigger] first_loss(db, l, i) && s == l[i] && code == reply_code(db, l[i]) + 1;
            assert(l.contains(l[i]));
            assert(w(l[i]) is Win);
            assert(reply_code(db, l[j]) <= reply_code(db, l[i]));
        },
        Score::Draw => {
            assert forall|j: int| 0 <= j < l.len() implies !(decode(reply_code(db, #[trigger] l[j])) is Loss) by {
                assert(l.contains(l[j]));
                assert(!(w(l[j]) is Loss));
            }
            let t = choose|t: Position| l.contains(t) && (#[trigger] w(t)) is Draw;
            let j = choose|j: int| 0 <= j < l.len() && l[j] == t;
            assert(decode(reply_code(db, l[j])) is Draw);
        },
    }
}

/// On true values the chosen move has the true value of the position, and
/// keeps it: best play under the database is best play.
pub proof fn best_moves_are_best_play(db: &Database, pos: Position, s: Position, code: int)
    requires
        playable(pos),
        succs(pos).len() > 0,
        forall|t: Position| #[trigger] succs(pos).contains(t) && count(t.w()) >= 3 ==> db.worth(t) == game_value(t),
        best_choice(db, succs(pos), s, code),
    ensures
        code == encode(game_value(pos)),
        match game_value(pos) {
            Score::Win(d) => reply_worth(db, s) == Score::Loss((d - 1) as nat),
            Score::Loss(d) => reply_worth(db, s) == Score::Win((d - 1) as nat),
            Score::Draw => reply_worth(db, s) is Draw,
        },
{
    let truth = |t: Position|
        if count(t.w()) < 3 {
            Score::Loss(0)
        } else {
            game_value(t)
        };
    let stored = |t: Position| reply_worth(db, t);
    game_values_are_consistent(pos);
    assert forall|t: Position| #[trigger] succs(pos).contains(t) implies truth(t) == stored(t) by {}
    lemma_minimax_agrees(pos, truth, stored, game_value(pos));
    perfect_play_counts_down(db, pos, s, code, game_value(pos));
}

/// Successor `i` is the first that is best for the mover.
pub open spec fn first_best(db: &Database, l: Seq<PlacementState>, i: int) -> bool {
    &&& 0 <= i < l.len()
    &&& forall|j: int|
        0 <= j < l.len() ==> if j < i {
            worth(db, l[i]) < worth(db, #[trigger] l[j])
        } else {
            worth(db, l[i]) <= worth(db, l[j])
        }
}

/// Pick the best placement-phase successor of `state` by the opening search.
/// The table is shared by the calls of one game; the choice is the best if what
/// the table says is true.
pub fn best_placement_move(state: &PlacementState, db: &Database, tt: &mut Tt) -> (r: Option<PlacementState>)
    requires
        state.pos.wf(),
        all_covered(db, state.in_hand(), next_states(*state)),
        in_range(old(tt)@),
    ensures
        match r {
            Some(s) => {
                &&& next_states(*state).contains(s)
                &&& tt_sound(db, old(tt)@) ==> exists|i: int| #[trigger]
                    first_best(db, next_states(*state), i) && s == next_states(*state)[i]
            },
            None => next_states(*state).len() == 0,
        },
        tt_sound(db, old(tt)@) ==> tt_sound(db, final(tt)@),
        in_range(final(tt)@),
        grown(old(tt)@, final(tt)@, hand_bound(*state)),
        storable(old(tt)@) && state.mover_hand <= 9 && state.opp_hand <= 9 ==> storable(final(tt)@),
{
    let next: Vec<PlacementState> = crate::opening::successors(state);
    if next.len() == 0 {
        return None;
    }
    proof {
        lemma_next_states(*state);
    }
    let ghost start = tt@;
    let ghost top = hand_bound(*state);
    let ghost sound = tt_sound(db, tt@);
    let mut best: i8 = -2;
    let mut at: usize = 0;
    let mut i: usize = 0;
    while i < next.len() && best < 1
        invariant
            i <= next.len(),
            next@ == next_states(*state),
            next.len() > 0,
            all_covered(db, state.in_hand(), next_states(*state)),
            sound ==> tt_sound(db, tt@),
            in_range(tt@),
            grown(start, tt@, top),
            forall|j: int|
                0 <= j < next.len() ==> (#[trigger] next@[j]).pos.wf() && next@[j].in_hand() < state.in_hand()
                    && hand_bound(next@[j]) <= top,
            -2 <= best <= 1,
            i == 0 ==> best == -2 && at == 0,
            i > 0 ==> at < i,
            sound && i > 0 ==> best == -worth(db, next@[at as int]),
            sound ==> forall|j: int|
                0 <= j < i ==> if j < at {
                    -worth(db, #[trigger] next@[j]) < best
                } else {
                    -worth(db, next@[j]) <= best
                },
        decreases next.len() - i,
    {
        proof {
            assert(next@[i as int].pos.wf());
            crate::opening::lemma_all_covered(db, state.in_hand(), next_states(*state), i as int);
            lemma_worth_range(db, next@[i as int]);
        }
        let ghost before = tt@;
        let v: i8 = -negamax(&next[i], -1, 1, db, tt);
        assert(sound ==> v == -worth(db, next@[i as int]));
        proof {
            lemma_grown(start, before, tt@, hand_bound(next@[i as int]), top);
        }
        if v > best {
            best = v;
            at = i;
        }
        i = i + 1;
    }
    proof {
        if sound {
            assert forall|j: int| 0 <= j < next.len() implies if j < at {
                worth(db, next@[at as int]) < worth(db, #[trigger] next@[j])
            } else {
                worth(db, next@[at as int]) <= worth(db, next@[j])
            } by {
                lemma_worth_range(db, next@[j]);
                if j < i {
                    assert(if j < at {
                        -worth(db, next@[j]) < best
                    } else {
                        -worth(db, next@[j]) <= best
                    });
                }
            }
            assert(first_best(db, next@, at as int));
        }
        if storable(start) && top <= 9 {
            searches_keep_tables_storable(start, tt@, top);
        }
    }
    Some(next[at])
}

/// The character of the cell in the given column and row: that of the point
/// there, or a blank where the board has no point.
pub open spec fn cell(pos: Position, c: int, r: int) -> char {
    if exists|p: int| #[trigger] is_at(p, c, r) {
        stone_char(pos, choose|p: int| #[trigger] is_at(p, c, r))
    } else {
        ' '
    }
}

/// Point `p` is in the given column and row.
pub open spec fn is_at(p: int, c: int, r: int) -> bool {
    0 <= p < 24 && column(p) == c && row(p) == r
}

/// The character at place `i` of a drawn board: seven lines, from row 7 down,
/// of seven cells with a blank after each.
pub open spec fn drawn(pos: Position, i: int) -> char {
    if i % 15 == 14 {
        '\n'
    } else if i % 15 % 2 == 0 {
        cell(pos, i % 15 / 2 + 1, 7 - i / 15)
    } else {
        ' '
    }
}

/// The point in the given column and row.
fn point_at(c: u8, r: u8) -> (found: Option<usize>)
    ensures
        match found {
            Some(p) => is_at(p as int, c as int, r as int),
            None => forall|p: int| !#[trigger] is_at(p, c as int, r as int),
        },
{
    let mut p: usize = 0;
    while p < N
        invariant
            p <= 24,
            forall|q: int| 0 <= q < p ==> !#[trigger] is_at(q, c as int, r as int),
        decreases 24 - p,
    {
        let (column, row) = crate::board::column_row(p);
        if column == c && row == r {
            return Some(p);
        }
        p = p + 1;
    }
    None
}

/// Draw a position as a board of text.
pub fn render(pos: Position) -> (s: String)
    ensures
        s@ == Seq::new(104, |i: int| drawn(pos, i)),
{
    let mut s: String = String::new();
    let mut line: u8 = 0;
    while line < 7
        invariant
            line <= 7,
            s@ == Seq::new((if line < 7 { 15 * line as int } else { 104 }) as nat, |i: int| drawn(pos, i)),
        decreases 7 - line,
    {
        let r: u8 = 7 - line;
        let mut c: u8 = 1;
        while c <= 7
            invariant
                1 <= c <= 8,
                line < 7,
                r == 7 - line,
                s@ == Seq::new((15 * line + 2 * (c - 1)) as nat, |i: int| drawn(pos, i)),
            decreases 8 - c,
        {
            let ch: char = match point_at(c, r) {
                Some(p) => {
                    proof {
                        let q = choose|q: int| #[trigger] is_at(q, c as int, r as int);
                        crate::board::lemma_names_differ(p as int, q);
                    }
                    if contains(pos.white(), p) {
                        'W'
                    } else if contains(pos.black(), p) {
                        'B'
                    } else {
                        '.'
                    }
                },
                None => ' ',
            };
            assert(ch == cell(pos, c as int, r as int));
            let ghost n = 15 * line + 2 * (c - 1);
            s.push(ch);
            s.push(' ');
            proof {
                lemma_drawn(pos, line as int, c as int);
                assert(s@ =~= Seq::new((n + 2) as nat, |i: int| drawn(pos, i)));
            }
            c = c + 1;
        }
        if line < 6 {
            s.push('\n');
            assert(drawn(pos, 15 * line + 14) == '\n');
            assert(s@ =~= Seq::new((15 * (line + 1)) as nat, |i: int| drawn(pos, i)));
        }
        line = line + 1;
    }
    s
}

proof fn lemma_drawn(pos: Position, line: int, c: int)
    requires
        0 <= line < 7,
        1 <= c <= 7,
    ensures
        drawn(pos, 15 * line + 2 * (c - 1)) == cell(pos, c, 7 - line),
        drawn(pos, 15 * line + 2 * (c - 1) + 1) == ' ',
{
    let i = 15 * line + 2 * (c - 1);
    assert(i / 15 == line && i % 15 == 2 * (c - 1));
    assert((i + 1) / 15 == line && (i + 1) % 15 == 2 * (c - 1) + 1);
}

/// The chosen move is as good as any other: where another leaves the opponent lost,
/// it does so at least as fast; where another draws, it does not lose; and where it
/// loses, every other loses at least as fast. Of equally good moves it is the
/// first.
pub proof fn no_move_is_better_than_the_chosen_one(db: &Database, l: Seq<Position>, s: Position, code: int, j: int)
    requires
        best_choice(db, l, s, code),
        0 <= j < l.len(),
    ensures
        l.contains(s),
        match reply_worth(db, l[j]) {
            Score::Loss(d) => reply_worth(db, s) matches Score::Loss(e) && e <= d,
            Score::Draw => !(reply_worth(db, s) is Win),
            Score::Win(d) => reply_worth(db, s) matches Score::Win(e) ==> d <= e,
        },
        reply_worth(db, l[j]) == reply_worth(db, s) ==> exists|i: int| 0 <= i <= j && #[trigger] l[i] == s,
        code == match reply_worth(db, s) {
            Score::Loss(d) => d + 1,
            Score::Win(d) => d + 1,
            Score::Draw => 0xffff,
        },
{
    let (win, draw) = (|r: Score| r is Loss, |r: Score| r is Draw);
    assert(win(decode(reply_code(db, l[j]))) ==> some_reply(db, l, win));
    assert(draw(decode(reply_code(db, l[j]))) ==> some_reply(db, l, draw));
    if some_reply(db, l, win) {
        let i = choose|i: int| #[trigger] first_win(db, l, i) && s == l[i] && code == reply_code(db, l[i]) + 1;
        assert(l[i] == s);
    } else if some_reply(db, l, draw) {
        let i = choose|i: int| #[trigger] first_draw(db, l, i) && s == l[i] && code == DRAW;
        assert(l[i] == s);
    } else {
        let i = choose|i: int| #[trigger] first_loss(db, l, i) && s == l[i] && code == reply_code(db, l[i]) + 1;
        assert(l[i] == s);
    }
}

/// What a move leads to is lost for a side with fewer than three stones, and else
/// is what the database holds for it: the draw code a draw, an odd code a win, an
/// even one a loss, in as many plies.
pub proof fn replies_go_by_the_database(db: &Database, s: Position)
    ensures
        reply_worth(db, s) == if count(s.w()) < 3 {
            Score::Loss(0)
        } else {
            let c = db@[(count(s.w()) as u8, count(s.b()) as u8)][slot_of(s) as int];
            if c == 0xffff {
                Score::Draw
            } else if c % 2 == 1 {
                Score::Win(c as nat)
            } else {
                Score::Loss(c as nat)
            }
        },
{
}

/// The chosen placement keeps the worth of the state: no placement is worth more,
/// every earlier one is worth less, and what it leads to is worth as much to the
/// opponent, turned round.
pub proof fn the_chosen_placement_keeps_the_worth(db: &Database, s: PlacementState, i: int, j: int)
    requires
        s.pos.wf(),
        s.mover_stones() >= 3,
        s.in_hand() > 0,
        first_best(db, next_states(s), i),
        0 <= j < next_states(s).len(),
    ensures
        worth(db, s) == -worth(db, next_states(s)[i]),
        -worth(db, next_states(s)[j]) <= -worth(db, next_states(s)[i]),
        j < i ==> -worth(db, next_states(s)[j]) < -worth(db, next_states(s)[i]),
{
    let l = next_states(s);
    worth_is_the_best_reply(db, s);
    let k = choose|k: int| 0 <= k < l.len() && -worth(db, #[trigger] l[k]) == worth(db, s);
    assert(worth(db, l[i]) <= worth(db, l[k]));
    assert(-worth(db, l[i]) <= worth(db, s));
    assert(worth(db, l[i]) <= worth(db, l[j]));
}

/// A drawn board shows every point in its column and row, the top row first: a W for
/// White's stones, a B for Black's, a dot for a free point; and blanks elsewhere.
pub proof fn boards_show_every_point(pos: Position, p: int)
    requires
        pos.wf(),
        0 <= p < 24,
    ensures
        ({
            let i = 15 * (7 - row(p)) + 2 * (column(p) - 1);
            &&& 0 <= i < 104
            &&& drawn(pos, i) == if member(pos.w(), p) {
                'W'
            } else if member(pos.b(), p) {
                'B'
            } else {
                '.'
            }
        }),
        forall|i: int| 0 <= i < 104 && (#[trigger] drawn(pos, i) == 'W' || drawn(pos, i) == 'B' || drawn(pos, i) == '.')
            ==> exists|q: int| 0 <= q < 24 && #[trigger] is_at(q, i % 15 / 2 + 1, 7 - i / 15),
{
    let (c, r) = (column(p), row(p));
    let i = 15 * (7 - r) + 2 * (c - 1);
    assert(1 <= c <= 7 && 1 <= r <= 7);
    assert(i % 15 == 2 * (c - 1) && i / 15 == 7 - r) by (nonlinear_arith)
        requires
            i == 15 * (7 - r) + 2 * (c - 1),
            1 <= c <= 7,
            1 <= r <= 7,
    ;
    assert(is_at(p, c, r));
    let q = choose|q: int| #[trigger] is_at(q, c, r);
    crate::board::lemma_names_differ(p, q);
}

} // verus!
