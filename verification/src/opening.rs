//! Opening-phase search.
//!
//! The placement phase is acyclic, so the value of a placement state is found
//! by alpha-beta search with a transposition table, which looks up the solved
//! movement phase once all stones are placed.

use std::collections::HashMap;

use vstd::prelude::*;
use vstd::std_specs::hash::*;
use vstd::std_specs::iter::IteratorSpec;

use crate::database::{decode, Database, DRAW};
use crate::game::Score;
use crate::index::{playable, slot_of, slots_are_symmetry_invariant};
use crate::mask::{count, disjoint};
use crate::movegen::{
    blocked_positions_have_no_move, moves_placement, placements, placements_are_the_legal_placements, succs,
};
use crate::opening_cache::{storable, storable_key, storable_value};
use crate::orbit::{blocked_is_symmetry_invariant, placements_commute_with_symmetries};
use crate::pos::{pack, Position};
use crate::symmetry::{
    canon, canon_sym, canonical_form_is_the_least_image, canonicalize, image_pos, inverse, lemma_image_pos,
    lemma_image_pos_inverse,
};
use crate::truth::{game_value, game_values_are_consistent};

verus! {

/// A placement-phase state, seen by the mover as a `Position` is. The hands
/// count stones not yet placed: placing a stone takes one off, and a captured
/// stone does not come back.
#[derive(Clone, Copy, PartialEq, Eq, Hash, Debug, Structural)]
pub struct PlacementState {
    pub pos: Position,
    pub mover_hand: u8,
    pub opp_hand: u8,
}

impl PlacementState {
    /// The empty board, with nine stones in each hand.
    pub fn initial() -> (s: Self)
        ensures
            s == (PlacementState { pos: pack(0, 0), mover_hand: 9, opp_hand: 9 }),
            s.pos.wf(),
            s.pos.w() == 0,
            s.pos.b() == 0,
    {
        proof {
            crate::mask::lemma_disjoint(0, 0);
            broadcast use crate::mask::group_mask;
        }
        PlacementState { pos: Position::new(0, 0), mover_hand: 9, opp_hand: 9 }
    }

    /// The stones that the mover has on the board and in hand.
    pub open spec fn mover_stones(self) -> nat {
        count(self.pos.w()) + self.mover_hand as nat
    }

    /// The stones that the opponent has on the board and in hand.
    pub open spec fn opp_stones(self) -> nat {
        count(self.pos.b()) + self.opp_hand as nat
    }

    /// The stones in both hands.
    pub open spec fn in_hand(self) -> nat {
        self.mover_hand as nat + self.opp_hand as nat
    }

    /// Total stones still available to the mover, on the board and in hand:
    /// with fewer than three the game is lost at any time.
    pub fn total_mover(&self) -> (n: u32)
        ensures
            n == self.mover_stones(),
    {
        self.pos.white_count() + self.mover_hand as u32
    }

    pub fn total_opp(&self) -> (n: u32)
        ensures
            n == self.opp_stones(),
    {
        self.pos.black_count() + self.opp_hand as u32
    }

    pub fn placement_done(&self) -> (r: bool)
        ensures
            r == (self.in_hand() == 0),
    {
        self.mover_hand == 0 && self.opp_hand == 0
    }
}

/// The state after the mover has placed a stone and the board became `pos`.
pub open spec fn handed_over(s: PlacementState, pos: Position) -> PlacementState {
    PlacementState { pos, mover_hand: s.opp_hand, opp_hand: (s.mover_hand - 1) as u8 }
}

/// The successors of a placement state.
pub open spec fn next_states(s: PlacementState) -> Seq<PlacementState> {
    if s.mover_hand == 0 {
        Seq::empty()
    } else {
        placements(s.pos.w(), s.pos.b()).map_values(|p: Position| handed_over(s, p))
    }
}

/// Successors of a placement state: the mover's next stone on any vacant
/// point, with the captures that closing a mill brings; then the opponent,
/// whose hand is unchanged, becomes the mover.
pub fn successors(state: &PlacementState) -> (out: Vec<PlacementState>)
    requires
        disjoint(state.pos.w(), state.pos.b()),
    ensures
        out@ == next_states(*state),
{
    let mut out: Vec<PlacementState> = Vec::new();
    if state.mover_hand == 0 {
        return out;
    }
    let boards: Vec<Position> = moves_placement(state.pos.white(), state.pos.black());
    let ghost f = |p: Position| handed_over(*state, p);
    let mut i: usize = 0;
    while i < boards.len()
        invariant
            i <= boards.len(),
            state.mover_hand > 0,
            out@ == boards@.take(i as int).map_values(f),
            f == (|p: Position| handed_over(*state, p)),
        decreases boards.len() - i,
    {
        out.push(PlacementState { pos: boards[i], mover_hand: state.opp_hand, opp_hand: state.mover_hand - 1 });
        assert(out@ =~= boards@.take(i + 1).map_values(f));
        i = i + 1;
    }
    assert(boards@.take(i as int) =~= boards@);
    out
}

/// Three-valued game outcome, from the mover's perspective.
#[derive(Clone, Copy, PartialEq, Eq, Debug, Structural)]
pub enum Value {
    Loss,
    Draw,
    Win,
}

/// How a table value relates to the true game value. Fail-soft alpha-beta
/// proves only a bound when it cuts off (`Lower`) or fails low (`Upper`).
#[derive(Clone, Copy, PartialEq, Eq, Debug, Structural)]
pub enum Bound {
    Exact,
    Lower,
    Upper,
}

/// The number that stands for an outcome.
pub open spec fn outcome(r: Score) -> int {
    match r {
        Score::Loss(_) => -1,
        Score::Draw => 0,
        Score::Win(_) => 1,
    }
}

/// The outcome that a number stands for.
pub fn from_i8(v: i8) -> (r: Value)
    requires
        -1 <= v <= 1,
    ensures
        r == (if v < 0 {
            Value::Loss
        } else if v == 0 {
            Value::Draw
        } else {
            Value::Win
        }),
{
    if v < 0 {
        Value::Loss
    } else if v == 0 {
        Value::Draw
    } else {
        Value::Win
    }
}

/// The number that stands for the outcome of a stored code.
pub fn code_to_i8(code: u16) -> (v: i8)
    ensures
        v == outcome(decode(code)),
{
    if code == DRAW {
        0
    } else if code % 2 == 0 {
        -1
    } else {
        1
    }
}

/// The value of a placement state to its mover: -1, 0 or 1. With fewer than
/// three stones left it is lost; with all stones placed it is what the
/// movement phase is worth; else it is the best that a placement can reach.
pub open spec fn worth(db: &Database, s: PlacementState) -> int
    decreases s.in_hand(), 1nat, 0nat,
{
    if s.mover_stones() < 3 {
        -1
    } else if s.in_hand() == 0 {
        if s.pos.blocked() {
            -1
        } else {
            outcome(db.worth(s.pos))
        }
    } else {
        best_reply(db, s.in_hand(), next_states(s))
    }
}

/// The best that the mover can do with a choice of `l`, states with fewer than
/// `hands` stones in hand in which the other side is to move.
pub open spec fn best_reply(db: &Database, hands: nat, l: Seq<PlacementState>) -> int
    decreases hands, 0nat, l.len(),
{
    if l.len() == 0 {
        -1
    } else {
        let rest = best_reply(db, hands, l.drop_last());
        let last = if l.last().in_hand() < hands {
            -worth(db, l.last())
        } else {
            -1
        };
        if last > rest {
            last
        } else {
            rest
        }
    }
}

/// The movement phase is registered for every board that the placement can end
/// with, unless the game is over there.
pub open spec fn covered(db: &Database, s: PlacementState) -> bool
    decreases s.in_hand(), 1nat, 0nat,
{
    if s.mover_stones() < 3 {
        true
    } else if s.in_hand() == 0 {
        s.pos.blocked() || db.covers(count(s.pos.w()), count(s.pos.b()))
    } else {
        all_covered(db, s.in_hand(), next_states(s))
    }
}

/// Every state of `l`, with fewer than `hands` stones in hand, is covered.
pub open spec fn all_covered(db: &Database, hands: nat, l: Seq<PlacementState>) -> bool
    decreases hands, 0nat, l.len(),
{
    if l.len() == 0 {
        true
    } else {
        all_covered(db, hands, l.drop_last()) && (l.last().in_hand() < hands ==> covered(db, l.last()))
    }
}

/// The successors hold one stone less in hand, on a proper board.
pub proof fn lemma_next_states(s: PlacementState)
    requires
        s.pos.wf(),
    ensures
        forall|i: int| 0 <= i < next_states(s).len() ==> {
            let t = #[trigger] next_states(s)[i];
            &&& t.in_hand() + 1 == s.in_hand()
            &&& t.pos.wf()
            &&& t == handed_over(s, t.pos)
            &&& placements(s.pos.w(), s.pos.b()).contains(t.pos)
        },
{
    placements_are_the_legal_placements(s.pos);
    let l = placements(s.pos.w(), s.pos.b());
    assert forall|i: int| 0 <= i < next_states(s).len() implies {
        let t = #[trigger] next_states(s)[i];
        &&& t.in_hand() + 1 == s.in_hand()
        &&& t.pos.wf()
        &&& t == handed_over(s, t.pos)
        &&& l.contains(t.pos)
    } by {
        assert(l.contains(l[i]));
    }
}

/// Every line of placements from the empty board is done after 18 plies, and not
/// before.
pub proof fn placement_takes_eighteen_plies(line: Seq<PlacementState>, i: int)
    requires
        0 <= i < line.len(),
        line[0] == (PlacementState { pos: pack(0, 0), mover_hand: 9, opp_hand: 9 }),
        forall|k: int| 0 < k < line.len() ==> next_states(line[k - 1]).contains(#[trigger] line[k]),
    ensures
        line[i].in_hand() + i == 18,
        line[i].pos.wf(),
    decreases i,
{
    if i > 0 {
        placement_takes_eighteen_plies(line, i - 1);
        lemma_next_states(line[i - 1]);
        let j = next_states(line[i - 1]).index_of(line[i]);
        assert(next_states(line[i - 1])[j] == line[i]);
    } else {
        broadcast use crate::mask::group_mask;
        crate::mask::lemma_disjoint(0, 0);
        crate::mask::lemma_on_board(0);
        crate::pos::lemma_pack(0, 0);
    }
}

/// `best_reply` is the greatest of the negated worths, and -1 of none.
proof fn lemma_best_reply(db: &Database, hands: nat, l: Seq<PlacementState>)
    requires
        forall|i: int| 0 <= i < l.len() ==> (#[trigger] l[i]).in_hand() < hands,
        forall|i: int| 0 <= i < l.len() ==> (#[trigger] l[i]).pos.wf(),
    ensures
        -1 <= best_reply(db, hands, l) <= 1,
        forall|i: int| 0 <= i < l.len() ==> -worth(db, #[trigger] l[i]) <= best_reply(db, hands, l),
        l.len() > 0 ==> exists|i: int| 0 <= i < l.len() && -worth(db, #[trigger] l[i]) == best_reply(db, hands, l),
    decreases hands, 0nat, l.len(),
{
    if l.len() > 0 {
        let r = l.drop_last();
        let n = l.len() - 1;
        assert forall|i: int| 0 <= i < r.len() implies (#[trigger] r[i]).in_hand() < hands && r[i].pos.wf() by {
            assert(r[i] == l[i]);
        }
        lemma_best_reply(db, hands, r);
        assert(l[n] == l.last());
        lemma_worth_range(db, l[n]);
        assert forall|i: int| 0 <= i < l.len() implies -worth(db, #[trigger] l[i]) <= best_reply(db, hands, l) by {
            if i < n {
                assert(r[i] == l[i]);
            }
        }
        if -worth(db, l[n]) > best_reply(db, hands, r) || r.len() == 0 {
            assert(-worth(db, l[n]) == best_reply(db, hands, l));
        } else {
            let i = choose|i: int| 0 <= i < r.len() && -worth(db, #[trigger] r[i]) == best_reply(db, hands, r);
            assert(l[i] == r[i]);
        }
    }
}

/// A worth is -1, 0 or 1.
pub proof fn lemma_worth_range(db: &Database, s: PlacementState)
    requires
        s.pos.wf(),
    ensures
        -1 <= worth(db, s) <= 1,
    decreases s.in_hand(), 1nat, 0nat,
{
    if s.mover_stones() >= 3 && s.in_hand() > 0 {
        lemma_next_states(s);
        lemma_best_reply(db, s.in_hand(), next_states(s));
    }
}

/// The worth of a state before the end is the greatest of the negated worths
/// of its successors.
pub proof fn worth_is_the_best_reply(db: &Database, s: PlacementState)
    requires
        s.pos.wf(),
        s.mover_stones() >= 3,
        s.in_hand() > 0,
    ensures
        next_states(s).len() == 0 ==> worth(db, s) == -1,
        forall|i: int| 0 <= i < next_states(s).len() ==> -worth(db, #[trigger] next_states(s)[i]) <= worth(db, s),
        next_states(s).len() > 0 ==> exists|i: int|
            0 <= i < next_states(s).len() && -worth(db, #[trigger] next_states(s)[i]) == worth(db, s),
{
    lemma_next_states(s);
    lemma_best_reply(db, s.in_hand(), next_states(s));
}

/// Once all stones are placed, a state in which the mover has three stones and a
/// move to make is worth what the database stores for its board, whatever the
/// stone counts: the draw code a draw, an odd code a win, an even one a loss.
pub proof fn finished_placements_go_by_the_database(db: &Database, s: PlacementState)
    requires
        s.pos.wf(),
        s.mover_hand == 0,
        s.opp_hand == 0,
        count(s.pos.w()) >= 3,
        succs(s.pos).len() > 0,
    ensures
        ({
            let values = db@[(count(s.pos.w()) as u8, count(s.pos.b()) as u8)];
            let code = values[slot_of(s.pos) as int];
            &&& worth(db, s) == if code == 0xffff {
                0int
            } else if code % 2 == 1 {
                1
            } else {
                -1
            }
            &&& value_of(worth(db, s)) == if code == 0xffff {
                Value::Draw
            } else if code % 2 == 1 {
                Value::Win
            } else {
                Value::Loss
            }
        }),
{
    blocked_positions_have_no_move(s.pos);
}

/// On true values a finished placement is worth what its board is worth under
/// best play.
pub proof fn finished_placements_are_worth_their_boards(db: &Database, s: PlacementState)
    requires
        playable(s.pos),
        s.mover_hand == 0,
        s.opp_hand == 0,
        db.worth(s.pos) == game_value(s.pos),
    ensures
        match game_value(s.pos) {
            Score::Win(_) => worth(db, s) == 1,
            Score::Draw => worth(db, s) == 0,
            Score::Loss(_) => worth(db, s) == -1,
        },
{
    blocked_positions_have_no_move(s.pos);
    game_values_are_consistent(s.pos);
}

/// A state is lost where the mover has fewer than three stones left, on the
/// board and in hand, and where all stones are placed and no move is left.
pub proof fn lost_placements(db: &Database, s: PlacementState)
    requires
        s.pos.wf(),
        count(s.pos.w()) + s.mover_hand < 3 || s.mover_hand == 0 && s.opp_hand == 0 && count(s.pos.b()) > 0 && succs(
            s.pos,
        ).len() == 0,
    ensures
        worth(db, s) == -1,
        value_of(worth(db, s)) == Value::Loss,
{
    blocked_positions_have_no_move(s.pos);
}

/// A valuation goes by the rules at one state: with fewer than three stones it is
/// lost; once all stones are placed it is worth what the movement phase is, and
/// nothing without a move; else it is the best that a placement can reach.
pub open spec fn goes_by_the_rules(db: &Database, f: spec_fn(PlacementState) -> int, t: PlacementState) -> bool {
    if count(t.pos.w()) + t.mover_hand < 3 {
        f(t) == -1
    } else if t.mover_hand == 0 && t.opp_hand == 0 {
        f(t) == if t.pos.blocked() {
            -1
        } else {
            match db.worth(t.pos) {
                Score::Win(_) => 1,
                Score::Draw => 0,
                Score::Loss(_) => -1int,
            }
        }
    } else {
        &&& next_states(t).len() == 0 ==> f(t) == -1
        &&& forall|i: int| 0 <= i < next_states(t).len() ==> -f(#[trigger] next_states(t)[i]) <= f(t)
        &&& next_states(t).len() > 0 ==> exists|i: int|
            0 <= i < next_states(t).len() && -f(#[trigger] next_states(t)[i]) == f(t)
    }
}

/// The rules of the placement phase determine the worths: a valuation that goes
/// by them everywhere is the one that the search computes.
pub proof fn rules_determine_the_worths(db: &Database, f: spec_fn(PlacementState) -> int, s: PlacementState)
    requires
        s.pos.wf(),
        forall|t: PlacementState| t.pos.wf() ==> #[trigger] goes_by_the_rules(db, f, t),
    ensures
        worth(db, s) == f(s),
    decreases s.in_hand(),
{
    let l = next_states(s);
    assert(goes_by_the_rules(db, f, s));
    if s.mover_stones() >= 3 && s.in_hand() > 0 {
        worth_is_the_best_reply(db, s);
        lemma_next_states(s);
        assert forall|i: int| 0 <= i < l.len() implies worth(db, #[trigger] l[i]) == f(l[i]) by {
            rules_determine_the_worths(db, f, l[i]);
        }
        if l.len() > 0 {
            let i = choose|i: int| 0 <= i < l.len() && -worth(db, #[trigger] l[i]) == worth(db, s);
            let j = choose|j: int| 0 <= j < l.len() && -f(#[trigger] l[j]) == f(s);
            assert(-f(l[i]) <= f(s));
            assert(-worth(db, l[j]) <= worth(db, s));
        }
    }
}

/// Placing a stone takes it from the mover's hand, leaves the opponent's hand, and
/// passes the turn; a captured stone does not come back.
pub proof fn placements_pass_the_turn(s: PlacementState, t: PlacementState)
    requires
        s.pos.wf(),
        next_states(s).contains(t),
    ensures
        s.mover_hand > 0,
        t.mover_hand == s.opp_hand,
        t.opp_hand + 1 == s.mover_hand,
        placements(s.pos.w(), s.pos.b()).contains(t.pos),
{
    lemma_next_states(s);
    let i = next_states(s).index_of(t);
    assert(next_states(s)[i] == t);
}

/// With a stone in hand every placement is open, and none is listed twice.
pub proof fn every_placement_is_open(s: PlacementState, p: Position)
    requires
        s.pos.wf(),
        s.mover_hand > 0,
    ensures
        placements(s.pos.w(), s.pos.b()).contains(p) ==> exists|t: PlacementState| #[trigger]
            next_states(s).contains(t) && t.pos == p,
        next_states(s).len() == placements(s.pos.w(), s.pos.b()).len(),
        next_states(s).no_duplicates(),
{
    let (l, n) = (placements(s.pos.w(), s.pos.b()), next_states(s));
    placements_are_the_legal_placements(s.pos);
    if l.contains(p) {
        let i = l.index_of(p);
        assert(n[i] == handed_over(s, p));
        assert(n.contains(n[i]));
    }
    assert forall|i: int, j: int| 0 <= i < n.len() && 0 <= j < n.len() && i != j implies n[i] != n[j] by {
        assert(n[i].pos == l[i] && n[j].pos == l[j]);
    }
}

/// The successors of a covered state are covered.
pub proof fn lemma_all_covered(db: &Database, hands: nat, l: Seq<PlacementState>, i: int)
    requires
        all_covered(db, hands, l),
        0 <= i < l.len(),
        l[i].in_hand() < hands,
    ensures
        covered(db, l[i]),
    decreases l.len(),
{
    if i < l.len() - 1 {
        assert(l.drop_last()[i] == l[i]);
        lemma_all_covered(db, hands, l.drop_last(), i);
    }
}

/// The image of a placement state.
pub open spec fn image_state(g: int, s: PlacementState) -> PlacementState {
    PlacementState { pos: image_pos(g, s.pos), ..s }
}

/// The successor of `s` whose image is the given successor of the image.
proof fn lemma_next_back(g: int, s: PlacementState, j: int) -> (i: int)
    requires
        0 <= g < 16,
        s.pos.wf(),
        0 <= j < next_states(image_state(g, s)).len(),
    ensures
        0 <= i < next_states(s).len(),
        image_state(g, next_states(s)[i]) == next_states(image_state(g, s))[j],
{
    let q = image_state(g, s);
    let t = next_states(q)[j];
    lemma_image_pos(g, s.pos);
    lemma_next_states(q);
    let back = image_pos(inverse(g), t.pos);
    lemma_image_pos_inverse(g, t.pos);
    lemma_image_pos(inverse(g), t.pos);
    placements_commute_with_symmetries(g, s.pos, back);
    let l = placements(s.pos.w(), s.pos.b());
    assert(l.contains(back));
    let i = choose|i: int| 0 <= i < l.len() && l[i] == back;
    assert(next_states(s)[i] == handed_over(s, back));
    i
}

/// The image of a successor is a successor of the image.
proof fn lemma_next_forward(g: int, s: PlacementState, i: int) -> (j: int)
    requires
        0 <= g < 16,
        s.pos.wf(),
        0 <= i < next_states(s).len(),
    ensures
        0 <= j < next_states(image_state(g, s)).len(),
        image_state(g, next_states(s)[i]) == next_states(image_state(g, s))[j],
{
    let q = image_state(g, s);
    let t = next_states(s)[i];
    lemma_image_pos(g, s.pos);
    lemma_next_states(s);
    lemma_image_pos(g, t.pos);
    placements_commute_with_symmetries(g, s.pos, t.pos);
    let l = placements(q.pos.w(), q.pos.b());
    assert(l.contains(image_pos(g, t.pos)));
    let j = choose|j: int| 0 <= j < l.len() && l[j] == image_pos(g, t.pos);
    assert(next_states(q)[j] == handed_over(q, image_pos(g, t.pos)));
    j
}

/// Symmetric placement states are worth the same.
pub proof fn worth_is_symmetry_invariant(db: &Database, g: int, s: PlacementState)
    requires
        0 <= g < 16,
        s.pos.wf(),
    ensures
        worth(db, image_state(g, s)) == worth(db, s),
    decreases s.in_hand(),
{
    let q = image_state(g, s);
    lemma_image_pos(g, s.pos);
    if s.mover_stones() >= 3 {
        if s.in_hand() == 0 {
            blocked_is_symmetry_invariant(g, s.pos);
            slots_are_symmetry_invariant(g, s.pos);
        } else {
            worth_is_the_best_reply(db, s);
            worth_is_the_best_reply(db, q);
            lemma_next_states(s);
            lemma_next_states(q);
            let (ls, lq) = (next_states(s), next_states(q));
            if ls.len() > 0 {
                let i = choose|i: int| 0 <= i < ls.len() && -worth(db, #[trigger] ls[i]) == worth(db, s);
                let j = lemma_next_forward(g, s, i);
                worth_is_symmetry_invariant(db, g, ls[i]);
                assert(-worth(db, lq[j]) <= worth(db, q));
            }
            if lq.len() > 0 {
                let j = choose|j: int| 0 <= j < lq.len() && -worth(db, #[trigger] lq[j]) == worth(db, q);
                let i = lemma_next_back(g, s, j);
                worth_is_symmetry_invariant(db, g, ls[i]);
                assert(-worth(db, ls[i]) <= worth(db, s));
            }
        }
    }
}

/// A table key: a board, and the stones in the hands of mover and opponent.
pub type TtKey = (Position, u8, u8);

/// A table entry: a value, and how it relates to the true one.
pub type TtValue = (i8, Bound);

/// The key as one number: the board takes 48 bits, each hand eight.
pub closed spec fn packed(k: TtKey) -> u64 {
    (k.0.0 + k.1 * 0x1_0000_0000_0000 + k.2 * 0x100_0000_0000_0000) as u64
}

/// The board of a key has no stray bits.
pub open spec fn key_ok(k: TtKey) -> bool {
    k.0.0 < 0x1_0000_0000_0000
}

/// The opening-search transposition table: from canonical board and hands to
/// value and bound.
pub struct Tt {
    map: HashMap<u64, TtValue>,
}

impl View for Tt {
    type V = Map<TtKey, TtValue>;

    closed spec fn view(&self) -> Map<TtKey, TtValue> {
        Map::new(|k: TtKey| key_ok(k) && self.map@.contains_key(packed(k)), |k: TtKey| self.map@[packed(k)])
    }
}

proof fn lemma_packed(k: TtKey, j: TtKey)
    requires
        key_ok(k),
        key_ok(j),
    ensures
        packed(k) == k.0.0 + k.1 * 0x1_0000_0000_0000 + k.2 * 0x100_0000_0000_0000,
        packed(k) == packed(j) ==> k == j,
{
}

/// The key that a number packs.
spec fn unpacked(n: u64) -> TtKey {
    (
        Position((n % 0x1_0000_0000_0000) as u64),
        (n / 0x1_0000_0000_0000 % 0x100) as u8,
        (n / 0x100_0000_0000_0000) as u8,
    )
}

proof fn lemma_unpacked(n: u64)
    ensures
        key_ok(unpacked(n)),
        packed(unpacked(n)) == n,
{
}

impl Tt {
    pub fn new() -> (tt: Self)
        ensures
            tt@ == Map::<TtKey, TtValue>::empty(),
    {
        broadcast use group_hash_axioms;
        let tt = Tt { map: HashMap::new() };
        assert(tt@ =~= Map::<TtKey, TtValue>::empty());
        tt
    }

    fn pack(key: &TtKey) -> (n: u64)
        requires
            key_ok(*key),
        ensures
            n == packed(*key),
    {
        key.0.0 + key.1 as u64 * 0x1_0000_0000_0000 + key.2 as u64 * 0x100_0000_0000_0000
    }

    pub fn insert(&mut self, key: TtKey, value: TtValue)
        requires
            key_ok(key),
        ensures
            final(self)@ == old(self)@.insert(key, value),
    {
        broadcast use group_hash_axioms;
        self.map.insert(Self::pack(&key), value);
        proof {
            assert forall|k: TtKey| #[trigger] key_ok(k) && packed(k) == packed(key) implies k == key by {
                lemma_packed(k, key);
            }
            assert(self@ =~= old(self)@.insert(key, value));
        }
    }

    pub fn get(&self, key: &TtKey) -> (r: Option<TtValue>)
        requires
            key_ok(*key),
        ensures
            r == (if self@.contains_key(*key) {
                Some(self@[*key])
            } else {
                None
            }),
    {
        broadcast use group_hash_axioms;
        match self.map.get(&Self::pack(key)) {
            Some(v) => Some(*v),
            None => None,
        }
    }

    pub fn contains_key(&self, key: &TtKey) -> (r: bool)
        requires
            key_ok(*key),
        ensures
            r == self@.contains_key(*key),
    {
        broadcast use group_hash_axioms;
        self.map.contains_key(&Self::pack(key))
    }

    proof fn lemma_dom(&self)
        ensures
            self@.dom().finite(),
            self@.dom().len() == self.map@.dom().len(),
    {
        broadcast use group_hash_axioms;
        let f = |n: u64| unpacked(n);
        let (x, y) = (self.map@.dom(), self@.dom());
        assert forall|n: u64, m: u64| x.contains(n) && x.contains(m) && #[trigger] f(n) == #[trigger] f(m) implies n == m by {
            lemma_unpacked(n);
            lemma_unpacked(m);
        }
        assert forall|k: TtKey| #[trigger] y.contains(k) <==> x.map(f).contains(k) by {
            if y.contains(k) {
                lemma_unpacked(packed(k));
                lemma_packed(k, unpacked(packed(k)));
                assert(x.contains(packed(k)) && f(packed(k)) == k);
            }
            if x.map(f).contains(k) {
                let n = choose|n: u64| x.contains(n) && f(n) == k;
                lemma_unpacked(n);
            }
        }
        assert(x.map(f) =~= y);
        vstd::set_lib::lemma_map_size(x, y, f);
    }

    pub fn len(&self) -> (n: usize)
        ensures
            n == self@.dom().len(),
            self@.dom().finite(),
    {
        broadcast use group_hash_axioms;
        proof {
            self.lemma_dom();
        }
        self.map.len()
    }

    pub fn is_empty(&self) -> (r: bool)
        ensures
            r == (self@ == Map::<TtKey, TtValue>::empty()),
    {
        proof {
            self.lemma_dom();
            if self@.dom().len() == 0 {
                assert(self@.dom() =~= Set::<TtKey>::empty());
                assert(self@ =~= Map::<TtKey, TtValue>::empty());
            } else if self@ == Map::<TtKey, TtValue>::empty() {
                assert(self@.dom() =~= Set::<TtKey>::empty());
            }
        }
        self.len() == 0
    }

    /// The keys of the table, each once, in no particular order.
    pub fn keys(&self) -> (keys: Vec<TtKey>)
        ensures
            keys@.no_duplicates(),
            forall|k: TtKey| #[trigger] keys@.contains(k) <==> self@.contains_key(k),
    {
        broadcast use group_hash_axioms;
        let mut keys: Vec<TtKey> = Vec::new();
        let ghost all = self.map.keys().remaining().unref();
        proof {
            let refs = self.map.keys().remaining();
            assert(all.no_duplicates()) by {
                assert forall|i: int, j: int| 0 <= i < all.len() && 0 <= j < all.len() && i != j implies all[i] != all[j] by {
                    assert(refs[i] != refs[j]);
                }
            }
        }
        for n in it: self.map.keys()
            invariant
                it.seq().unref() == all,
                keys@ == all.take(it.index()).map_values(|n: u64| unpacked(n)),
        {
            let pos = Position(*n % 0x1_0000_0000_0000);
            let key: TtKey = (pos, (*n / 0x1_0000_0000_0000 % 0x100) as u8, (*n / 0x100_0000_0000_0000) as u8);
            keys.push(key);
            assert(keys@ =~= all.take(it.index() + 1).map_values(|n: u64| unpacked(n)));
        }
        proof {
            assert(all.take(all.len() as int) =~= all);
            assert forall|k: TtKey| #[trigger] keys@.contains(k) <==> self@.contains_key(k) by {
                if keys@.contains(k) {
                    let i = choose|i: int| 0 <= i < keys@.len() && keys@[i] == k;
                    lemma_unpacked(all[i]);
                    assert(all.to_set().contains(all[i]));
                }
                if self@.contains_key(k) {
                    assert(all.to_set().contains(packed(k)));
                    let i = choose|i: int| 0 <= i < all.len() && all[i] == packed(k);
                    lemma_unpacked(packed(k));
                    lemma_packed(k, unpacked(packed(k)));
                    assert(keys@[i] == k);
                }
            }
            assert forall|i: int, j: int| 0 <= i < keys@.len() && 0 <= j < keys@.len() && i != j implies keys@[i] != keys@[j] by {
                lemma_unpacked(all[i]);
                lemma_unpacked(all[j]);
            }
        }
        keys
    }
}

impl Default for Tt {
    fn default() -> (tt: Self)
        ensures
            tt@ == Map::<TtKey, TtValue>::empty(),
    {
        Tt::new()
    }
}

/// The state that a key stands for.
pub open spec fn state_of(k: TtKey) -> PlacementState {
    PlacementState { pos: k.0, mover_hand: k.1, opp_hand: k.2 }
}

/// An entry says the truth about its state.
pub open spec fn entry_sound(db: &Database, k: TtKey, e: TtValue) -> bool {
    &&& -1 <= e.0 <= 1
    &&& match e.1 {
        Bound::Exact => worth(db, state_of(k)) == e.0,
        Bound::Lower => worth(db, state_of(k)) >= e.0,
        Bound::Upper => worth(db, state_of(k)) <= e.0,
    }
}

/// Every entry of the table says the truth.
pub open spec fn tt_sound(db: &Database, tt: Map<TtKey, TtValue>) -> bool {
    forall|k: TtKey| #[trigger] tt.contains_key(k) ==> entry_sound(db, k, tt[k])
}

/// The table key of a placement state: its canonical board, and its hands,
/// which the symmetries leave alone.
pub fn tt_key(state: &PlacementState) -> (k: TtKey)
    requires
        state.pos.wf(),
    ensures
        k == (canon(state.pos), state.mover_hand, state.opp_hand),
        key_ok(k),
        k.0.wf(),
{
    let (c, _) = canonicalize(state.pos);
    (c, state.mover_hand, state.opp_hand)
}

/// A state is worth what the state of its key is worth.
pub proof fn lemma_key_worth(db: &Database, s: PlacementState)
    requires
        s.pos.wf(),
    ensures
        worth(db, state_of((canon(s.pos), s.mover_hand, s.opp_hand))) == worth(db, s),
{
    canonical_form_is_the_least_image(s.pos);
    worth_is_symmetry_invariant(db, canon_sym(s.pos), s);
}

/// What a fail-soft search with window `alpha`, `beta` owes for the value `v`:
/// an upper bound where it fails low, a lower bound where it cuts off, and
/// the value in between.
pub open spec fn fail_soft(r: int, alpha: int, beta: int, v: int) -> bool {
    &&& -1 <= r <= 1
    &&& r <= alpha ==> v <= r
    &&& r >= beta ==> v >= r
    &&& alpha < r < beta ==> v == r
}

/// The greater of the two hands.
pub open spec fn hand_bound(s: PlacementState) -> u8 {
    if s.mover_hand >= s.opp_hand {
        s.mover_hand
    } else {
        s.opp_hand
    }
}

/// The search has ended where one side is out of stones or all are placed.
pub open spec fn ends_search(s: PlacementState) -> bool {
    s.mover_stones() < 3 || s.in_hand() == 0
}

/// An entry as a search adds it: for a proper board with no more than `top`
/// stones in a hand, and exact unless the value is a draw.
pub open spec fn search_entry(k: TtKey, e: TtValue, top: u8) -> bool {
    &&& k.0.wf()
    &&& k.1 <= top
    &&& k.2 <= top
    &&& -1 <= e.0 <= 1
    &&& e.0 != 0 ==> e.1 == Bound::Exact
}

/// What a search does to the table: no key is lost, and every entry that was
/// not there before is one that a search adds.
pub open spec fn grown(before: Map<TtKey, TtValue>, after: Map<TtKey, TtValue>, top: u8) -> bool {
    &&& forall|k: TtKey| before.contains_key(k) ==> #[trigger] after.contains_key(k)
    &&& forall|k: TtKey| #[trigger]
        after.contains_key(k) ==> before.contains_key(k) && after[k] == before[k] || search_entry(k, after[k], top)
}

/// One search after another.
pub proof fn lemma_grown(a: Map<TtKey, TtValue>, b: Map<TtKey, TtValue>, c: Map<TtKey, TtValue>, low: u8, top: u8)
    requires
        grown(a, b, top),
        grown(b, c, low),
        low <= top,
    ensures
        grown(a, c, top),
{
    assert forall|k: TtKey| a.contains_key(k) implies #[trigger] c.contains_key(k) by {
        assert(b.contains_key(k));
    }
    assert forall|k: TtKey| #[trigger] c.contains_key(k) implies a.contains_key(k) && c[k] == a[k] || search_entry(
        k,
        c[k],
        top,
    ) by {
        if b.contains_key(k) && c[k] == b[k] {
            assert(a.contains_key(k) && b[k] == a[k] || search_entry(k, b[k], top));
        }
    }
}

/// A table that can be stored can be stored after a search too.
pub proof fn searches_keep_tables_storable(before: Map<TtKey, TtValue>, after: Map<TtKey, TtValue>, top: u8)
    requires
        grown(before, after, top),
        top <= 9,
        storable(before),
    ensures
        storable(after),
{
    assert forall|k: TtKey| #[trigger] after.contains_key(k) implies storable_key(k) && storable_value(after[k]) by {
        if !search_entry(k, after[k], top) {
            assert(before.contains_key(k));
        }
    }
}

/// Every value of the table is -1, 0 or 1.
pub open spec fn in_range(tt: Map<TtKey, TtValue>) -> bool {
    forall|k: TtKey| #[trigger] tt.contains_key(k) ==> -1 <= tt[k].0 <= 1
}

/// Alpha-beta search with a transposition table. What it finds is right if what
/// the table says is.
pub fn negamax(state: &PlacementState, alpha: i8, beta: i8, db: &Database, tt: &mut Tt) -> (r: i8)
    requires
        state.pos.wf(),
        -1 <= alpha < beta <= 1,
        covered(db, *state),
        in_range(old(tt)@),
    ensures
        -1 <= r <= 1,
        tt_sound(db, old(tt)@) || ends_search(*state) ==> fail_soft(
            r as int,
            alpha as int,
            beta as int,
            worth(db, *state),
        ),
        tt_sound(db, old(tt)@) ==> tt_sound(db, final(tt)@),
        in_range(final(tt)@),
        grown(old(tt)@, final(tt)@, hand_bound(*state)),
        storable(old(tt)@) && state.mover_hand <= 9 && state.opp_hand <= 9 ==> storable(final(tt)@),
        ends_search(*state) ==> final(tt)@ == old(tt)@,
        !ends_search(*state) && next_states(*state).len() > 0 ==> final(tt)@.contains_key(
            (canon(state.pos), state.mover_hand, state.opp_hand),
        ),
    decreases state.in_hand(),
{
    let ghost start = tt@;
    let ghost top = hand_bound(*state);
    let ghost sound = tt_sound(db, tt@);
    if state.total_mover() < 3 {
        return -1;
    }
    if state.placement_done() {
        return if state.pos.is_blocked() {
            -1
        } else {
            code_to_i8(db.lookup_pos(state.pos))
        };
    }
    let key: TtKey = tt_key(state);
    proof {
        lemma_key_worth(db, *state);
        lemma_worth_range(db, *state);
        worth_is_the_best_reply(db, *state);
        lemma_next_states(*state);
    }
    if let Some((v, bound)) = tt.get(&key) {
        assert(sound ==> entry_sound(db, key, tt@[key]));
        match bound {
            Bound::Exact => {
                return v;
            },
            Bound::Lower => {
                if v >= beta {
                    return v;
                }
            },
            Bound::Upper => {
                if v <= alpha {
                    return v;
                }
            },
        }
    }
    let succs: Vec<PlacementState> = successors(state);
    if succs.len() == 0 {
        return -1;
    }
    let mut best: i8 = -2;
    let mut floor: i8 = alpha;
    let mut i: usize = 0;
    while i < succs.len() && floor < beta
        invariant
            i <= succs.len(),
            succs@ == next_states(*state),
            state.pos.wf(),
            covered(db, *state),
            state.mover_stones() >= 3,
            state.in_hand() > 0,
            -1 <= alpha < beta <= 1,
            sound ==> tt_sound(db, tt@),
            in_range(tt@),
            grown(start, tt@, top),
            top == hand_bound(*state),
            forall|j: int| 0 <= j < succs.len() ==> {
                let t = #[trigger] succs@[j];
                &&& t.in_hand() + 1 == state.in_hand()
                &&& t.pos.wf()
                &&& hand_bound(t) <= top
            },
            -2 <= best <= 1,
            i == 0 <==> best == -2,
            floor == (if best > alpha {
                best
            } else {
                alpha
            }),
            sound && best < beta ==> forall|j: int| 0 <= j < i ==> -worth(db, #[trigger] succs@[j]) <= best,
            sound && best > alpha ==> exists|j: int| 0 <= j < i && -worth(db, #[trigger] succs@[j]) >= best,
        decreases succs.len() - i,
    {
        proof {
            assert(succs@[i as int].pos.wf());
            lemma_all_covered(db, state.in_hand(), next_states(*state), i as int);
        }
        let ghost before = tt@;
        let v: i8 = -negamax(&succs[i], -beta, -floor, db, tt);
        proof {
            lemma_grown(start, before, tt@, hand_bound(succs@[i as int]), top);
            let t = -worth(db, succs@[i as int]);
            assert(sound ==> fail_soft(-v as int, -beta as int, -floor as int, -t));
            if sound && v > best && v > alpha {
                assert(-worth(db, succs@[i as int]) >= v);
            }
        }
        if v > best {
            best = v;
        }
        if best > floor {
            floor = best;
        }
        i = i + 1;
    }
    proof {
        let l = next_states(*state);
        if sound && best < beta {
            let j = choose|j: int| 0 <= j < l.len() && -worth(db, #[trigger] l[j]) == worth(db, *state);
            assert(-worth(db, succs@[j]) <= best);
        }
        if sound && best > alpha {
            let j = choose|j: int| 0 <= j < i && -worth(db, #[trigger] succs@[j]) >= best;
            assert(-worth(db, l[j]) <= worth(db, *state));
        }
    }
    // Of the three values, a lower bound of 1 and an upper bound of -1 are
    // exact; only "at least 0" and "at most 0" are not.
    let bound: Bound = if best >= beta && best < 1 {
        Bound::Lower
    } else if best <= alpha && best > -1 {
        Bound::Upper
    } else {
        Bound::Exact
    };
    let ghost before = tt@;
    tt.insert(key, (best, bound));
    proof {
        lemma_grown(start, before, tt@, top, top);
        if storable(start) && top <= 9 {
            searches_keep_tables_storable(start, tt@, top);
        }
    }
    best
}

/// The outcome that a worth stands for.
pub open spec fn value_of(v: int) -> Value {
    if v < 0 {
        Value::Loss
    } else if v == 0 {
        Value::Draw
    } else {
        Value::Win
    }
}

/// Evaluate a placement state exactly. `db` must hold the movement phase for
/// every board that the placement can end with. Whatever the table holds, as
/// long as it is true, the result is the same.
pub fn solve(state: &PlacementState, db: &Database, tt: &mut Tt) -> (r: Value)
    requires
        state.pos.wf(),
        covered(db, *state),
        in_range(old(tt)@),
    ensures
        tt_sound(db, old(tt)@) || ends_search(*state) ==> r == value_of(worth(db, *state)),
        tt_sound(db, old(tt)@) ==> tt_sound(db, final(tt)@),
        in_range(final(tt)@),
        grown(old(tt)@, final(tt)@, hand_bound(*state)),
        storable(old(tt)@) && state.mover_hand <= 9 && state.opp_hand <= 9 ==> storable(final(tt)@),
        ends_search(*state) ==> final(tt)@ == old(tt)@,
        !ends_search(*state) && next_states(*state).len() > 0 ==> final(tt)@.contains_key(
            (canon(state.pos), state.mover_hand, state.opp_hand),
        ),
{
    proof {
        lemma_worth_range(db, *state);
    }
    from_i8(negamax(state, -1, 1, db, tt))
}

/// The game-theoretic value of the empty board, with a fresh table.
pub fn solve_from_empty_board(db: &Database) -> (r: Value)
    requires
        covered(db, PlacementState { pos: pack(0, 0), mover_hand: 9, opp_hand: 9 }),
    ensures
        r == value_of(worth(db, PlacementState { pos: pack(0, 0), mover_hand: 9, opp_hand: 9 })),
{
    let mut tt = Tt::new();
    solve(&PlacementState::initial(), db, &mut tt)
}

/// A true table bounds the worths: an exact entry gives the worth, a lower one a bound
/// from below, an upper one a bound from above.
pub proof fn true_tables_bound_the_worths(db: &Database, tt: Map<TtKey, TtValue>, k: TtKey)
    requires
        tt_sound(db, tt),
        tt.contains_key(k),
    ensures
        ({
            let v = worth(db, PlacementState { pos: k.0, mover_hand: k.1, opp_hand: k.2 });
            match tt[k].1 {
                Bound::Exact => v == tt[k].0,
                Bound::Lower => v >= tt[k].0,
                Bound::Upper => v <= tt[k].0,
            }
        }),
{
}

/// What a search finds: with the full window the worth; with any window on which side of
/// it the worth lies, and the worth where it lies inside.
pub proof fn searches_find_the_worth(r: int, alpha: int, beta: int, v: int)
    requires
        -1 <= v <= 1,
        alpha < beta,
        fail_soft(r, alpha, beta, v),
    ensures
        alpha == -1 && beta == 1 ==> r == v,
        r <= alpha <==> v <= alpha,
        r >= beta <==> v >= beta,
        alpha < v < beta ==> r == v,
{
}

/// Tables do not matter: two searches of one state, each with a true table, whatever they
/// hold, find the same.
pub proof fn tables_do_not_matter(db: &Database, s: PlacementState, first: int, second: int)
    requires
        s.pos.wf(),
        fail_soft(first, -1, 1, worth(db, s)),
        fail_soft(second, -1, 1, worth(db, s)),
    ensures
        first == second,
        first == worth(db, s),
{
    lemma_worth_range(db, s);
}

/// The outcomes and the numbers that stand for them go together.
pub proof fn outcomes_go_with_their_numbers(v: int)
    requires
        -1 <= v <= 1,
    ensures
        value_of(v) == Value::Win <==> v == 1,
        value_of(v) == Value::Draw <==> v == 0,
        value_of(v) == Value::Loss <==> v == -1,
{
}

} // verus!
