//! The true value of every movement-phase position, and what makes a database
//! hold it.

use vstd::prelude::*;

use crate::database::{decode, Database};
use crate::game::{
    consistent_values_are_true, depth, in_pair, lemma_pair_closed, minimax, reply, score,
    scores_are_consistent, total, Score,
};
use crate::index::{playable, slot_of, slots, stones, subspace_of, SubspaceId};
use crate::mask::count;
use crate::movegen::succs;
use crate::pos::Position;
use crate::retro::{solved_values_cover_all_positions, solves};

verus! {

/// The value of a position under best play on both sides, with captures
/// followed all the way down.
pub open spec fn game_value(pos: Position) -> Score
    decreases total(pos), 1nat,
{
    score(below(pos), pos)
}

/// The true values of the positions with fewer stones than `pos`.
pub open spec fn below(pos: Position) -> spec_fn(Position) -> Score
    decreases total(pos), 0nat,
{
    |s: Position|
        if total(s) < total(pos) {
            game_value(s)
        } else {
            Score::Draw
        }
}

/// `minimax` looks at the worths of the successors only.
pub proof fn lemma_minimax_agrees(
    pos: Position,
    f: spec_fn(Position) -> Score,
    g: spec_fn(Position) -> Score,
    r: Score,
)
    requires
        minimax(pos, f, r),
        forall|s: Position| #[trigger] succs(pos).contains(s) ==> f(s) == g(s),
    ensures
        minimax(pos, g, r),
{
    match r {
        Score::Win(d) => {
            let s = choose|s: Position| succs(pos).contains(s) && #[trigger] f(s) == Score::Loss((d - 1) as nat);
            assert(g(s) == Score::Loss((d - 1) as nat));
            assert forall|s: Position| succs(pos).contains(s) && (#[trigger] g(s)) is Loss implies d - 1 <= g(s)->Loss_0 by {
                assert(f(s) == g(s));
            }
        },
        Score::Loss(d) => {
            if succs(pos).len() > 0 {
                let s = choose|s: Position| succs(pos).contains(s) && #[trigger] f(s) == Score::Win((d - 1) as nat);
                assert(g(s) == Score::Win((d - 1) as nat));
                assert forall|s: Position| succs(pos).contains(s) implies (#[trigger] g(s)) is Win && g(s)->Win_0 <= d - 1 by {
                    assert(f(s) == g(s));
                }
            }
        },
        Score::Draw => {
            let s = choose|s: Position| succs(pos).contains(s) && (#[trigger] f(s)) is Draw;
            assert(g(s) is Draw);
            assert forall|s: Position| succs(pos).contains(s) implies !((#[trigger] g(s)) is Loss) by {
                assert(f(s) == g(s));
            }
        },
    }
}

/// A capture from the pair `{a, b}` can lead to `s`, with the game going on.
pub open spec fn captured_from(a: nat, b: nat, s: Position) -> bool {
    &&& playable(s)
    &&& count(s.w()) + 1 == b && count(s.b()) == a || count(s.w()) + 1 == a && count(s.b()) == b
}

/// The values of a pair depend on what captures lead to, and on nothing else.
pub proof fn values_depend_on_captures(
    a: nat,
    b: nat,
    f: spec_fn(Position) -> Score,
    g: spec_fn(Position) -> Score,
    p: Position,
)
    requires
        stones(a as int),
        stones(b as int),
        in_pair(a, b, p),
        forall|s: Position| #[trigger] captured_from(a, b, s) ==> f(s) == g(s),
    ensures
        score(f, p) == score(g, p),
{
    let here = |q: Position| score(f, q);
    assert forall|q: Position| #[trigger] in_pair(a, b, q) implies minimax(
        q,
        |s: Position| reply(g, here, q, s),
        here(q),
    ) by {
        let wf = |s: Position| reply(f, here, q, s);
        let wg = |s: Position| reply(g, here, q, s);
        scores_are_consistent(a, b, f, q);
        assert forall|s: Position| #[trigger] succs(q).contains(s) implies wf(s) == wg(s) by {
            lemma_pair_closed(a, b, q, s);
            if count(s.w()) >= 3 && total(s) < total(q) {
                assert(captured_from(a, b, s));
            }
        }
        lemma_minimax_agrees(q, wf, wg, here(q));
    }
    consistent_values_are_true(a, b, g, here, p);
}

/// The value of every position is what the values of its successors make of it.
pub proof fn game_values_are_consistent(p: Position)
    requires
        playable(p),
    ensures
        minimax(
            p,
            |s: Position|
                if count(s.w()) < 3 {
                    Score::Loss(0)
                } else {
                    game_value(s)
                },
            game_value(p),
        ),
{
    let (a, b) = (count(p.w()), count(p.b()));
    let f = below(p);
    let here = |q: Position| score(f, q);
    let worth = |s: Position|
        if count(s.w()) < 3 {
            Score::Loss(0)
        } else {
            game_value(s)
        };
    let replies = |s: Position| reply(f, here, p, s);
    scores_are_consistent(a, b, f, p);
    assert forall|s: Position| #[trigger] succs(p).contains(s) implies replies(s) == worth(s) by {
        lemma_pair_closed(a, b, p, s);
        if count(s.w()) >= 3 && total(s) == total(p) {
            values_depend_on_captures(a, b, f, below(s), s);
        }
    }
    lemma_minimax_agrees(p, replies, worth, game_value(p));
}

/// The side that makes the last move wins: won positions have odd depths, lost
/// ones even depths.
pub proof fn depths_tell_outcomes(p: Position)
    requires
        playable(p),
    ensures
        match game_value(p) {
            Score::Win(d) => d % 2 == 1,
            Score::Loss(d) => d % 2 == 0,
            Score::Draw => true,
        },
    decreases depth(game_value(p)),
{
    let worth = |s: Position|
        if count(s.w()) < 3 {
            Score::Loss(0)
        } else {
            game_value(s)
        };
    game_values_are_consistent(p);
    match game_value(p) {
        Score::Win(d) => {
            let s = choose|s: Position| succs(p).contains(s) && #[trigger] worth(s) == Score::Loss((d - 1) as nat);
            lemma_pair_closed(count(p.w()), count(p.b()), p, s);
            if count(s.w()) >= 3 {
                depths_tell_outcomes(s);
            }
        },
        Score::Loss(d) => {
            if succs(p).len() > 0 {
                let s = choose|s: Position| succs(p).contains(s) && #[trigger] worth(s) == Score::Win((d - 1) as nat);
                lemma_pair_closed(count(p.w()), count(p.b()), p, s);
                depths_tell_outcomes(s);
            }
        },
        Score::Draw => {},
    }
}

/// The codes are the true values of the positions of a subspace.
pub open spec fn true_values(sub: SubspaceId, vals: Seq<u16>) -> bool {
    &&& vals.len() == slots(sub)
    &&& forall|p: Position| #[trigger]
        playable(p) && subspace_of(p) == sub ==> decode(vals[slot_of(p) as int]) == game_value(p)
}

/// The database holds the true values of subspace `(w, b)`.
pub open spec fn truthful(db: &Database, w: nat, b: nat) -> bool {
    let sub = SubspaceId { w: w as u8, b: b as u8 };
    stones(w as int) && stones(b as int) && db@.contains_key((sub.w, sub.b)) && true_values(sub, db@[(sub.w, sub.b)])
}

/// A pair that is solved on the true values of what its captures lead to gets
/// its true values.
pub proof fn solved_pairs_are_true(a: nat, b: nat, db: &Database, sub: SubspaceId, vals: Seq<u16>)
    requires
        stones(a as int),
        stones(b as int),
        b > 3 ==> truthful(db, (b - 1) as nat, a),
        a > 3 ==> truthful(db, (a - 1) as nat, b),
        sub == (SubspaceId { w: a as u8, b: b as u8 }) || sub == (SubspaceId { w: b as u8, b: a as u8 }),
        solves(|s: Position| db.worth(s), sub, vals),
    ensures
        true_values(sub, vals),
{
    let f = |s: Position| db.worth(s);
    assert forall|p: Position| #[trigger] playable(p) && subspace_of(p) == sub implies decode(vals[slot_of(p) as int])
        == game_value(p) by {
        assert(in_pair(a, b, p));
        solved_values_cover_all_positions(a, b, db, sub, vals, p);
        assert forall|s: Position| #[trigger] captured_from(a, b, s) implies f(s) == below(p)(s) by {
            assert(playable(s));
        }
        values_depend_on_captures(a, b, f, below(p), p);
    }
}

/// A database in which every subspace is solved by its own lower values holds
/// the truth.
pub proof fn solved_databases_are_true(db: &Database, p: Position)
    requires
        forall|sub: SubspaceId| #[trigger] sub.wf() ==> db@.contains_key((sub.w, sub.b)) && solves(
            |s: Position| db.worth(s),
            sub,
            db@[(sub.w, sub.b)],
        ),
        playable(p),
    ensures
        db.worth(p) == game_value(p),
    decreases total(p),
{
    let (a, b) = (count(p.w()), count(p.b()));
    let sub = subspace_of(p);
    let f = |s: Position| db.worth(s);
    assert(sub.wf());
    solved_values_cover_all_positions(a, b, db, sub, db@[(sub.w, sub.b)], p);
    assert forall|s: Position| #[trigger] captured_from(a, b, s) implies f(s) == below(p)(s) by {
        solved_databases_are_true(db, s);
    }
    values_depend_on_captures(a, b, f, below(p), p);
}

/// The value of a position by the values of what its moves lead to, in plain words:
/// without a move it is lost at once. If a move leaves the opponent lost, or with
/// fewer than three stones, it is won, in one ply more than the fastest such. If
/// every move leaves the opponent won, it is lost, in one ply more than the slowest.
/// Else it is drawn.
pub proof fn values_follow_the_rules(p: Position)
    requires
        playable(p),
    ensures
        ({
            let l = succs(p);
            let lost_in = |s: Position, d: nat| l.contains(s) && if count(s.w()) < 3 {
                d == 0
            } else {
                game_value(s) == Score::Loss(d)
            };
            let won_in = |s: Position, d: nat| l.contains(s) && count(s.w()) >= 3 && game_value(s) == Score::Win(d);
            match game_value(p) {
                Score::Win(d) => {
                    &&& exists|s: Position| #[trigger] lost_in(s, (d - 1) as nat) && d > 0
                    &&& forall|s: Position, e: nat| #[trigger] lost_in(s, e) ==> d <= e + 1
                },
                Score::Loss(d) => if l.len() == 0 {
                    d == 0
                } else {
                    &&& exists|s: Position| #[trigger] won_in(s, (d - 1) as nat) && d > 0
                    &&& forall|s: Position| #[trigger] l.contains(s) ==> exists|e: nat| #[trigger] won_in(s, e) && e + 1 <= d
                },
                Score::Draw => {
                    &&& forall|s: Position, e: nat| !#[trigger] lost_in(s, e)
                    &&& exists|s: Position| #[trigger] l.contains(s) && count(s.w()) >= 3 && game_value(s) is Draw
                },
            }
        }),
{
    let l = succs(p);
    let lost_in = |s: Position, d: nat| l.contains(s) && if count(s.w()) < 3 {
        d == 0
    } else {
        game_value(s) == Score::Loss(d)
    };
    let won_in = |s: Position, d: nat| l.contains(s) && count(s.w()) >= 3 && game_value(s) == Score::Win(d);
    let worth = |s: Position|
        if count(s.w()) < 3 {
            Score::Loss(0)
        } else {
            game_value(s)
        };
    game_values_are_consistent(p);
    assert forall|s: Position, e: nat| #[trigger] lost_in(s, e) implies worth(s) == Score::Loss(e) by {}
    match game_value(p) {
        Score::Win(d) => {
            let s = choose|s: Position| l.contains(s) && #[trigger] worth(s) == Score::Loss((d - 1) as nat);
            assert(lost_in(s, (d - 1) as nat));
        },
        Score::Loss(d) => {
            if l.len() > 0 {
                let s = choose|s: Position| l.contains(s) && #[trigger] worth(s) == Score::Win((d - 1) as nat);
                assert(won_in(s, (d - 1) as nat));
                assert forall|s: Position| #[trigger] l.contains(s) implies exists|e: nat| #[trigger]
                    won_in(s, e) && e + 1 <= d by {
                    assert(worth(s) is Win);
                    assert(won_in(s, worth(s)->Win_0));
                }
            }
        },
        Score::Draw => {
            let s = choose|s: Position| l.contains(s) && (#[trigger] worth(s)) is Draw;
            assert(l.contains(s));
            assert forall|s: Position, e: nat| !#[trigger] lost_in(s, e) by {
                if lost_in(s, e) {
                    assert(!(worth(s) is Loss));
                }
            }
        },
    }
}

} // verus!
