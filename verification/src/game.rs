//! What a position is worth.
//!
//! The movement phase is a game on a graph: the mover loses with fewer than
//! three stones or without a move, and a position that neither side can force
//! is a draw. Winners hurry and losers hold out, so a decided position also
//! has a depth, the number of plies to the end.
//!
//! Captures lead out of a material pair to one with fewer stones. The worth of
//! the positions of one pair is therefore defined over the worth of smaller
//! ones, which `smaller` stands for throughout.

use vstd::prelude::*;

use crate::index::stones;
use crate::mask::count;
use crate::movegen::{capture_edge, lemma_move_counts, quiet_edge, successors_are_the_legal_moves, succs};
use crate::orbit::moves_commute_with_symmetries;
use crate::pos::Position;
use crate::symmetry::{image_pos, inverse, lemma_image_pos, lemma_image_pos_inverse};

verus! {

/// The outcome for the side to move, with its depth in plies.
pub enum Score {
    Win(nat),
    Loss(nat),
    Draw,
}

/// The number of stones on the board.
pub open spec fn total(pos: Position) -> nat {
    count(pos.w()) + count(pos.b())
}

/// The worth of `next`, a successor of `pos`, to the side that is to move in
/// it: lost with fewer than three stones, given by `smaller` after a capture,
/// and by `here` otherwise.
pub open spec fn reply(
    smaller: spec_fn(Position) -> Score,
    here: spec_fn(Position) -> Score,
    pos: Position,
    next: Position,
) -> Score {
    if count(next.w()) < 3 {
        Score::Loss(0)
    } else if total(next) < total(pos) {
        smaller(next)
    } else {
        here(next)
    }
}

/// `r` is what the worths `worth` of the successors of `pos` make of `pos`:
/// without a move a loss; with a lost successor a win through the fastest;
/// with won successors only a loss through the slowest; else a draw.
pub open spec fn minimax(pos: Position, worth: spec_fn(Position) -> Score, r: Score) -> bool {
    match r {
        Score::Win(d) => {
            &&& d > 0
            &&& exists|s: Position| succs(pos).contains(s) && #[trigger] worth(s) == Score::Loss((d - 1) as nat)
            &&& forall|s: Position|
                succs(pos).contains(s) && (#[trigger] worth(s)) is Loss ==> d - 1 <= worth(s)->Loss_0
        },
        Score::Loss(d) => if succs(pos).len() == 0 {
            d == 0
        } else {
            &&& d > 0
            &&& forall|s: Position|
                succs(pos).contains(s) ==> (#[trigger] worth(s)) is Win && worth(s)->Win_0 <= d - 1
            &&& exists|s: Position| succs(pos).contains(s) && #[trigger] worth(s) == Score::Win((d - 1) as nat)
        },
        Score::Draw => {
            &&& forall|s: Position| succs(pos).contains(s) ==> !((#[trigger] worth(s)) is Loss)
            &&& exists|s: Position| succs(pos).contains(s) && (#[trigger] worth(s)) is Draw
        },
    }
}

/// The mover of `pos` wins in `d` plies when `worth` is the worth of its
/// successors.
pub open spec fn wins_at(pos: Position, worth: spec_fn(Position) -> Score, d: nat) -> bool {
    minimax(pos, worth, Score::Win(d))
}

/// The mover of `pos` loses in `d` plies when `worth` is the worth of its
/// successors.
pub open spec fn loses_at(pos: Position, worth: spec_fn(Position) -> Score, d: nat) -> bool {
    minimax(pos, worth, Score::Loss(d))
}

/// The worth of the positions that are decided in fewer than `d` plies; the
/// others count as drawn. Round `d` adds those decided in `d` plies, by what
/// is known of their successors.
pub open spec fn decided_below(smaller: spec_fn(Position) -> Score, d: nat) -> spec_fn(Position) -> Score
    decreases d,
{
    if d == 0 {
        |p: Position| Score::Draw
    } else {
        let k = (d - 1) as nat;
        let known = decided_below(smaller, k);
        |p: Position|
            if !(known(p) is Draw) {
                known(p)
            } else if wins_at(p, |s: Position| reply(smaller, known, p, s), k) {
                Score::Win(k)
            } else if loses_at(p, |s: Position| reply(smaller, known, p, s), k) {
                Score::Loss(k)
            } else {
                Score::Draw
            }
    }
}

/// The worth of a position: decided in the round in which it is first forced,
/// and drawn if no round decides it.
#[verifier::opaque]
pub open spec fn score(smaller: spec_fn(Position) -> Score, pos: Position) -> Score {
    if exists|d: nat| !(#[trigger] decided_below(smaller, d)(pos) is Draw) {
        decided_below(smaller, choose|d: nat| !(#[trigger] decided_below(smaller, d)(pos) is Draw))(pos)
    } else {
        Score::Draw
    }
}

/// The depth of a decided score.
pub open spec fn depth(r: Score) -> nat {
    match r {
        Score::Win(d) => d,
        Score::Loss(d) => d,
        Score::Draw => 0,
    }
}

/// What is decided stays decided.
proof fn lemma_decided_stays(smaller: spec_fn(Position) -> Score, p: Position, d: nat, e: nat)
    requires
        d <= e,
        !(decided_below(smaller, d)(p) is Draw),
    ensures
        decided_below(smaller, e)(p) == decided_below(smaller, d)(p),
    decreases e,
{
    if d < e {
        lemma_decided_stays(smaller, p, d, (e - 1) as nat);
    }
}

/// What is decided below `d` has a depth below `d`, and was decided in that round.
proof fn lemma_decided_depth(smaller: spec_fn(Position) -> Score, p: Position, d: nat)
    requires
        !(decided_below(smaller, d)(p) is Draw),
    ensures
        depth(decided_below(smaller, d)(p)) < d,
        decided_below(smaller, depth(decided_below(smaller, d)(p)) + 1)(p) == decided_below(smaller, d)(p),
        decided_below(smaller, depth(decided_below(smaller, d)(p)))(p) is Draw,
    decreases d,
{
    if d > 0 {
        if !(decided_below(smaller, (d - 1) as nat)(p) is Draw) {
            lemma_decided_depth(smaller, p, (d - 1) as nat);
        }
    }
}

/// `decided_below` is `score` cut off at a depth.
pub proof fn lemma_score(smaller: spec_fn(Position) -> Score, p: Position, d: nat)
    ensures
        decided_below(smaller, d)(p) == (if depth(score(smaller, p)) < d {
            score(smaller, p)
        } else {
            Score::Draw
        }),
{
    reveal(score);
    if exists|d: nat| !(#[trigger] decided_below(smaller, d)(p) is Draw) {
        let e = choose|d: nat| !(#[trigger] decided_below(smaller, d)(p) is Draw);
        lemma_decided_depth(smaller, p, e);
        let k = depth(score(smaller, p));
        if k < d {
            lemma_decided_stays(smaller, p, k + 1, d);
        } else if !(decided_below(smaller, d)(p) is Draw) {
            lemma_decided_stays(smaller, p, d, k);
        }
    } else {
        assert(decided_below(smaller, d)(p) is Draw);
    }
}

/// The worth of the successors decides the worth of a position in one way only.
pub proof fn minimax_is_functional(pos: Position, worth: spec_fn(Position) -> Score, r: Score, q: Score)
    requires
        minimax(pos, worth, r),
        minimax(pos, worth, q),
    ensures
        r == q,
{
}

/// The positions of the material pair `{a, b}`.
pub open spec fn in_pair(a: nat, b: nat, pos: Position) -> bool {
    &&& pos.wf()
    &&& count(pos.w()) == a && count(pos.b()) == b || count(pos.w()) == b && count(pos.b()) == a
}

/// A move within the stones of a pair stays in the pair; any other is a capture.
pub proof fn lemma_pair_closed(a: nat, b: nat, pos: Position, s: Position)
    requires
        in_pair(a, b, pos),
        succs(pos).contains(s),
    ensures
        s.wf(),
        total(s) <= total(pos),
        total(s) == total(pos) <==> quiet_edge(pos, s),
        total(s) < total(pos) <==> capture_edge(pos, s),
        total(s) == total(pos) ==> in_pair(a, b, s) && count(s.w()) == count(pos.b()) && count(s.b()) == count(pos.w()),
        total(s) < total(pos) ==> count(s.w()) + 1 == count(pos.b()) && count(s.b()) == count(pos.w()),
{
    successors_are_the_legal_moves(pos);
    lemma_move_counts(pos, s);
}

/// `here` settles every position of the pair by the worth of its successors.
pub open spec fn settles(
    a: nat,
    b: nat,
    smaller: spec_fn(Position) -> Score,
    here: spec_fn(Position) -> Score,
) -> bool {
    forall|p: Position| #[trigger]
        in_pair(a, b, p) ==> minimax(p, |s: Position| reply(smaller, here, p, s), here(p))
}

/// The score cut off at depth `d`.
pub open spec fn cut(r: Score, d: nat) -> Score {
    if depth(r) < d {
        r
    } else {
        Score::Draw
    }
}

proof fn lemma_settled_below(
    a: nat,
    b: nat,
    smaller: spec_fn(Position) -> Score,
    here: spec_fn(Position) -> Score,
    p: Position,
    d: nat,
)
    requires
        settles(a, b, smaller, here),
        in_pair(a, b, p),
    ensures
        decided_below(smaller, d)(p) == cut(here(p), d),
    decreases d,
{
    if d > 0 {
        let k = (d - 1) as nat;
        let known = decided_below(smaller, k);
        let seen = |s: Position| reply(smaller, known, p, s);
        let worth = |s: Position| reply(smaller, here, p, s);
        lemma_settled_below(a, b, smaller, here, p, k);
        assert(minimax(p, worth, here(p)));
        assert forall|s: Position| #[trigger] succs(p).contains(s) implies seen(s) == worth(s) || seen(s) == cut(
            worth(s),
            k,
        ) by {
            lemma_pair_closed(a, b, p, s);
            if count(s.w()) >= 3 && total(s) == total(p) {
                lemma_settled_below(a, b, smaller, here, s, k);
            }
        }
        if wins_at(p, seen, k) {
            let t = choose|s: Position| succs(p).contains(s) && #[trigger] seen(s) == Score::Loss((k - 1) as nat);
            assert(worth(t) == Score::Loss((k - 1) as nat));
            assert forall|s: Position| succs(p).contains(s) && (#[trigger] worth(s)) is Loss implies k - 1 <= worth(s)->Loss_0 by {
                assert(seen(s) == worth(s) || seen(s) == cut(worth(s), k));
            }
            assert(minimax(p, worth, Score::Win(k)));
            minimax_is_functional(p, worth, Score::Win(k), here(p));
        }
        if here(p) == Score::Win(k) {
            let t = choose|s: Position| succs(p).contains(s) && #[trigger] worth(s) == Score::Loss((k - 1) as nat);
            assert(seen(t) == Score::Loss((k - 1) as nat));
            assert forall|s: Position| succs(p).contains(s) && (#[trigger] seen(s)) is Loss implies k - 1 <= seen(s)->Loss_0 by {
                assert(worth(s) is Loss);
            }
            assert(wins_at(p, seen, k));
        }
        if loses_at(p, seen, k) {
            if succs(p).len() > 0 {
                assert forall|s: Position| succs(p).contains(s) implies (#[trigger] worth(s)) is Win && worth(s)->Win_0 <= k - 1 by {
                    assert(seen(s) is Win);
                }
                let t = choose|s: Position| succs(p).contains(s) && #[trigger] seen(s) == Score::Win((k - 1) as nat);
                assert(worth(t) == Score::Win((k - 1) as nat));
            }
            assert(minimax(p, worth, Score::Loss(k)));
            minimax_is_functional(p, worth, Score::Loss(k), here(p));
        }
        if here(p) == Score::Loss(k) {
            if succs(p).len() > 0 {
                assert forall|s: Position| succs(p).contains(s) implies (#[trigger] seen(s)) is Win && seen(s)->Win_0 <= k - 1 by {
                    assert(worth(s) is Win);
                }
                let t = choose|s: Position| succs(p).contains(s) && #[trigger] worth(s) == Score::Win((k - 1) as nat);
                assert(seen(t) == Score::Win((k - 1) as nat));
            }
            assert(loses_at(p, seen, k));
            assert(!wins_at(p, seen, k)) by {
                if wins_at(p, seen, k) {
                    minimax_is_functional(p, seen, Score::Win(k), Score::Loss(k));
                }
            }
        }
    }
}

/// Values that agree with their successors everywhere in a pair are the true
/// ones: local consistency leaves no choice.
pub proof fn consistent_values_are_true(
    a: nat,
    b: nat,
    smaller: spec_fn(Position) -> Score,
    here: spec_fn(Position) -> Score,
    p: Position,
)
    requires
        settles(a, b, smaller, here),
        in_pair(a, b, p),
    ensures
        here(p) == score(smaller, p),
{
    let d = depth(here(p)) + depth(score(smaller, p)) + 1;
    lemma_score(smaller, p, d);
    lemma_settled_below(a, b, smaller, here, p, d);
}

/// Some item of a list of won positions is won slowest.
proof fn lemma_slowest(l: Seq<Position>, worth: spec_fn(Position) -> Score) -> (i: int)
    requires
        l.len() > 0,
        forall|j: int| 0 <= j < l.len() ==> worth(#[trigger] l[j]) is Win,
    ensures
        0 <= i < l.len(),
        forall|j: int| 0 <= j < l.len() ==> worth(#[trigger] l[j])->Win_0 <= worth(l[i])->Win_0,
    decreases l.len(),
{
    let n = l.len() - 1;
    if n == 0 {
        0
    } else {
        let r = l.drop_last();
        assert forall|j: int| 0 <= j < r.len() implies worth(#[trigger] r[j]) is Win by {
            assert(r[j] == l[j]);
        }
        let i = lemma_slowest(r, worth);
        let best = if worth(l[i])->Win_0 < worth(l[n])->Win_0 {
            n
        } else {
            i
        };
        assert forall|j: int| 0 <= j < l.len() implies worth(#[trigger] l[j])->Win_0 <= worth(l[best])->Win_0 by {
            if j < n {
                assert(r[j] == l[j]);
            }
            assert(r[i] == l[i]);
        }
        best
    }
}

/// A round sees the replies that are decided below it.
proof fn lemma_seen(
    a: nat,
    b: nat,
    smaller: spec_fn(Position) -> Score,
    p: Position,
    k: nat,
)
    requires
        in_pair(a, b, p),
    ensures
        forall|s: Position| #[trigger] succs(p).contains(s) ==> {
            let seen = reply(smaller, decided_below(smaller, k), p, s);
            let worth = reply(smaller, |q: Position| score(smaller, q), p, s);
            seen == worth || seen == cut(worth, k)
        },
{
    assert forall|s: Position| #[trigger] succs(p).contains(s) implies {
        let seen = reply(smaller, decided_below(smaller, k), p, s);
        let worth = reply(smaller, |q: Position| score(smaller, q), p, s);
        seen == worth || seen == cut(worth, k)
    } by {
        lemma_score(smaller, s, k);
    }
}

proof fn lemma_drawn_has_no_lost_reply(
    a: nat,
    b: nat,
    smaller: spec_fn(Position) -> Score,
    p: Position,
    e: nat,
)
    requires
        in_pair(a, b, p),
        score(smaller, p) is Draw,
    ensures
        forall|s: Position|
            #![trigger succs(p).contains(s)]
            succs(p).contains(s) ==> reply(smaller, |q: Position| score(smaller, q), p, s) != Score::Loss(e),
    decreases e,
{
    let here = |q: Position| score(smaller, q);
    let known = decided_below(smaller, e + 1);
    let seen = |s: Position| reply(smaller, known, p, s);
    let worth = |s: Position| reply(smaller, here, p, s);
    assert forall|s: Position| succs(p).contains(s) && (#[trigger] worth(s)) is Loss implies e <= worth(s)->Loss_0 by {
        if worth(s)->Loss_0 < e {
            lemma_drawn_has_no_lost_reply(a, b, smaller, p, worth(s)->Loss_0);
        }
    }
    lemma_seen(a, b, smaller, p, e + 1);
    lemma_score(smaller, p, e + 1);
    lemma_score(smaller, p, e + 2);
    assert forall|s: Position| succs(p).contains(s) implies worth(s) != Score::Loss(e) by {
        if worth(s) == Score::Loss(e) {
            assert(seen(s) == Score::Loss(e));
            assert forall|t: Position| succs(p).contains(t) && (#[trigger] seen(t)) is Loss implies e <= seen(t)->Loss_0 by {
                let f = seen(t)->Loss_0;
                assert(worth(t) == Score::Loss(f));
            }
            assert(wins_at(p, seen, e + 1));
            assert(!(decided_below(smaller, e + 2)(p) is Draw));
        }
    }
}

/// The worth of every position is what the worth of its successors makes of it.
pub proof fn scores_are_consistent(
    a: nat,
    b: nat,
    smaller: spec_fn(Position) -> Score,
    p: Position,
)
    requires
        in_pair(a, b, p),
    ensures
        minimax(
            p,
            |s: Position| reply(smaller, |q: Position| score(smaller, q), p, s),
            score(smaller, p),
        ),
{
    let here = |q: Position| score(smaller, q);
    let worth = |s: Position| reply(smaller, here, p, s);
    let v = score(smaller, p);
    let k = depth(v);
    let known = decided_below(smaller, k);
    let seen = |s: Position| reply(smaller, known, p, s);
    lemma_seen(a, b, smaller, p, k);
    lemma_score(smaller, p, k);
    lemma_score(smaller, p, k + 1);
    if v is Win {
        assert(wins_at(p, seen, k));
        let t = choose|s: Position| succs(p).contains(s) && #[trigger] seen(s) == Score::Loss((k - 1) as nat);
        assert(worth(t) == Score::Loss((k - 1) as nat));
        assert forall|s: Position| succs(p).contains(s) && (#[trigger] worth(s)) is Loss implies k - 1 <= worth(s)->Loss_0 by {
            assert(seen(s) == worth(s) || seen(s) == cut(worth(s), k));
        }
    } else if v is Loss {
        assert(loses_at(p, seen, k));
        if succs(p).len() > 0 {
            assert forall|s: Position| succs(p).contains(s) implies (#[trigger] worth(s)) is Win && worth(s)->Win_0 <= k - 1 by {
                assert(seen(s) is Win);
            }
            let t = choose|s: Position| succs(p).contains(s) && #[trigger] seen(s) == Score::Win((k - 1) as nat);
            assert(worth(t) == Score::Win((k - 1) as nat));
        }
    } else {
        assert forall|s: Position| succs(p).contains(s) implies !((#[trigger] worth(s)) is Loss) by {
            if worth(s) is Loss {
                lemma_drawn_has_no_lost_reply(a, b, smaller, p, worth(s)->Loss_0);
            }
        }
        if forall|s: Position| succs(p).contains(s) ==> !((#[trigger] worth(s)) is Draw) {
            if succs(p).len() == 0 {
                assert(loses_at(p, seen, 0));
            } else {
                assert forall|j: int| 0 <= j < succs(p).len() implies worth(#[trigger] succs(p)[j]) is Win by {
                    assert(succs(p).contains(succs(p)[j]));
                }
                let i = lemma_slowest(succs(p), worth);
                let m = worth(succs(p)[i])->Win_0;
                let all = decided_below(smaller, m + 1);
                let view = |s: Position| reply(smaller, all, p, s);
                lemma_seen(a, b, smaller, p, m + 1);
                lemma_score(smaller, p, m + 1);
                lemma_score(smaller, p, m + 2);
                assert forall|s: Position| succs(p).contains(s) implies (#[trigger] view(s)) is Win && view(s)->Win_0 <= m by {
                    let j = choose|j: int| 0 <= j < succs(p).len() && succs(p)[j] == s;
                    assert(worth(succs(p)[j])->Win_0 <= m);
                }
                assert(succs(p).contains(succs(p)[i]));
                assert(view(succs(p)[i]) == Score::Win(m));
                assert(loses_at(p, view, m + 1));
                assert(!(decided_below(smaller, m + 2)(p) is Draw));
            }
        }
    }
}

/// The successor of `p` whose image under `g` is the successor `t` of the
/// image of `p`.
proof fn lemma_successor_back(g: int, p: Position, t: Position) -> (s: Position)
    requires
        0 <= g < 16,
        p.wf(),
        succs(image_pos(g, p)).contains(t),
    ensures
        succs(p).contains(s),
        image_pos(g, s) == t,
{
    let s = image_pos(inverse(g), t);
    lemma_image_pos(g, p);
    successors_are_the_legal_moves(image_pos(g, p));
    lemma_image_pos_inverse(g, t);
    lemma_image_pos(inverse(g), t);
    moves_commute_with_symmetries(g, p, s);
    s
}

/// The image under `g` of a successor of `p` follows from the image of `p`.
proof fn lemma_successor_forward(g: int, p: Position, s: Position)
    requires
        0 <= g < 16,
        p.wf(),
        succs(p).contains(s),
    ensures
        succs(image_pos(g, p)).contains(image_pos(g, s)),
{
    successors_are_the_legal_moves(p);
    moves_commute_with_symmetries(g, p, s);
}

/// Symmetric positions are worth the same where their successors are.
pub proof fn lemma_minimax_image(
    g: int,
    p: Position,
    worth: spec_fn(Position) -> Score,
    other: spec_fn(Position) -> Score,
    r: Score,
)
    requires
        0 <= g < 16,
        p.wf(),
        forall|s: Position| #[trigger] succs(p).contains(s) ==> worth(s) == other(image_pos(g, s)),
        minimax(p, worth, r),
    ensures
        minimax(image_pos(g, p), other, r),
{
    let q = image_pos(g, p);
    if succs(p).len() > 0 {
        assert(succs(p).contains(succs(p)[0]));
        lemma_successor_forward(g, p, succs(p)[0]);
    }
    if succs(q).len() > 0 {
        assert(succs(q).contains(succs(q)[0]));
        let s = lemma_successor_back(g, p, succs(q)[0]);
        assert(succs(p).contains(s));
    }
    match r {
        Score::Win(d) => {
            let s = choose|s: Position| succs(p).contains(s) && #[trigger] worth(s) == Score::Loss((d - 1) as nat);
            lemma_successor_forward(g, p, s);
            assert(other(image_pos(g, s)) == Score::Loss((d - 1) as nat));
            assert forall|t: Position| succs(q).contains(t) && (#[trigger] other(t)) is Loss implies d - 1 <= other(t)->Loss_0 by {
                let s = lemma_successor_back(g, p, t);
                assert(worth(s) == other(t));
            }
        },
        Score::Loss(d) => {
            if succs(p).len() > 0 {
                let s = choose|s: Position| succs(p).contains(s) && #[trigger] worth(s) == Score::Win((d - 1) as nat);
                lemma_successor_forward(g, p, s);
                assert(other(image_pos(g, s)) == Score::Win((d - 1) as nat));
                assert forall|t: Position| succs(q).contains(t) implies (#[trigger] other(t)) is Win && other(t)->Win_0 <= d - 1 by {
                    let s = lemma_successor_back(g, p, t);
                    assert(worth(s) == other(t));
                }
            }
        },
        Score::Draw => {
            let s = choose|s: Position| succs(p).contains(s) && (#[trigger] worth(s)) is Draw;
            lemma_successor_forward(g, p, s);
            assert(other(image_pos(g, s)) is Draw);
            assert forall|t: Position| succs(q).contains(t) implies !((#[trigger] other(t)) is Loss) by {
                let s = lemma_successor_back(g, p, t);
                assert(worth(s) == other(t));
            }
        },
    }
}

/// Some item of a list that holds a lost position is lost fastest.
proof fn lemma_fastest(l: Seq<Position>, worth: spec_fn(Position) -> Score) -> (i: int)
    requires
        exists|j: int| 0 <= j < l.len() && worth(#[trigger] l[j]) is Loss,
    ensures
        0 <= i < l.len(),
        worth(l[i]) is Loss,
        forall|j: int| 0 <= j < l.len() && worth(#[trigger] l[j]) is Loss ==> worth(l[i])->Loss_0 <= worth(l[j])->Loss_0,
    decreases l.len(),
{
    let r = l.drop_last();
    let n = l.len() - 1;
    if exists|j: int| 0 <= j < r.len() && worth(#[trigger] r[j]) is Loss {
        let i = lemma_fastest(r, worth);
        let best = if worth(l[n]) is Loss && worth(l[n])->Loss_0 < worth(r[i])->Loss_0 {
            n
        } else {
            i
        };
        assert(r[i] == l[i]);
        assert forall|j: int| 0 <= j < l.len() && worth(#[trigger] l[j]) is Loss implies worth(l[best])->Loss_0
            <= worth(l[j])->Loss_0 by {
            if j < n {
                assert(r[j] == l[j]);
            }
        }
        best
    } else {
        let j = choose|j: int| 0 <= j < l.len() && worth(#[trigger] l[j]) is Loss;
        if j < n {
            assert(r[j] == l[j]);
        }
        assert forall|j: int| 0 <= j < l.len() && worth(#[trigger] l[j]) is Loss implies worth(l[n])->Loss_0
            <= worth(l[j])->Loss_0 by {
            if j < n {
                assert(r[j] == l[j]);
            }
        }
        n
    }
}

/// The worths of the successors make something of every position.
pub proof fn lemma_minimax_total(pos: Position, worth: spec_fn(Position) -> Score) -> (r: Score)
    ensures
        minimax(pos, worth, r),
{
    let l = succs(pos);
    if l.len() == 0 {
        Score::Loss(0)
    } else if exists|j: int| 0 <= j < l.len() && worth(#[trigger] l[j]) is Loss {
        let i = lemma_fastest(l, worth);
        let d = worth(l[i])->Loss_0;
        assert(l.contains(l[i]) && worth(l[i]) == Score::Loss(d));
        assert forall|s: Position| l.contains(s) && (#[trigger] worth(s)) is Loss implies d <= worth(s)->Loss_0 by {
            let j = choose|j: int| 0 <= j < l.len() && l[j] == s;
            assert(worth(l[j]) is Loss);
        }
        Score::Win(d + 1)
    } else {
        assert forall|s: Position| l.contains(s) implies !((#[trigger] worth(s)) is Loss) by {
            let j = choose|j: int| 0 <= j < l.len() && l[j] == s;
            assert(!(worth(l[j]) is Loss));
        }
        if exists|j: int| 0 <= j < l.len() && worth(#[trigger] l[j]) is Draw {
            let j = choose|j: int| 0 <= j < l.len() && worth(#[trigger] l[j]) is Draw;
            assert(l.contains(l[j]) && worth(l[j]) is Draw);
            Score::Draw
        } else {
            let i = lemma_slowest(l, worth);
            let d = worth(l[i])->Win_0;
            assert(l.contains(l[i]) && worth(l[i]) == Score::Win(d));
            assert forall|s: Position| l.contains(s) implies (#[trigger] worth(s)) is Win && worth(s)->Win_0 <= d by {
                let j = choose|j: int| 0 <= j < l.len() && l[j] == s;
                assert(worth(l[j]) is Win);
            }
            Score::Loss(d + 1)
        }
    }
}

} // verus!
