//! The invariant of retrograde propagation.
//!
//! Nodes are decided in order of depth. A queue of buckets, one per depth,
//! holds nodes to be processed: a committed entry is a node whose value is
//! set; a tentative one is a node that captures alone would decide at this
//! depth, unless something decides it sooner. Processing a node updates the
//! nodes with a quiet move to it, once; `done` is the set of nodes processed.

use vstd::prelude::*;

use crate::database::{decode, DRAW};
use crate::game::{
    cut, decided_below, depth, in_pair, lemma_score, loses_at, reply, score, total, wins_at, Score,
};
use crate::mask::count;
use crate::movegen::{quiet_preds, succs};
use crate::orbit::class_weight;
use crate::pair::{
    lemma_decided_node, lemma_moves, lemma_node, lemma_node_pos, lemma_occurs, lemma_predecessors,
    lemma_quiet_preds_in_pair, lemma_same_canon_counts, lemma_same_node, lemma_stab_positive, nodes_of,
    occurrences, Pair,
};
use crate::pos::Position;
use crate::symmetry::{canon, stab};

verus! {

/// The count of a node that can never be lost, because some capture wins.
pub const UNBOUNDED: u32 = 0xffff_ffff;

/// The solver's arrays, its queue, and the nodes it has processed.
#[verifier::ext_equal]
pub struct Work {
    pub val: Seq<u16>,
    pub count: Seq<u32>,
    pub seen: Seq<u16>,
    pub queue: Seq<Seq<(usize, bool)>>,
    pub done: Set<int>,
}

/// The bucket for depth `e`.
pub open spec fn at(queue: Seq<Seq<(usize, bool)>>, e: int) -> Seq<(usize, bool)> {
    if 0 <= e < queue.len() {
        queue[e]
    } else {
        Seq::empty()
    }
}

/// The class of `s` has been processed as a win.
pub open spec fn won_done(pair: Pair, w: Work, s: Position) -> bool {
    w.done.contains(pair.node(s)) && w.val[pair.node(s)] % 2 == 1
}

/// The stabilizer sizes of the quiet successors in `l` that are not processed
/// as wins, summed.
pub open spec fn open_weight(pair: Pair, w: Work, x: int, l: Seq<Position>) -> nat
    decreases l.len(),
{
    if l.len() == 0 {
        0
    } else {
        open_weight(pair, w, x, l.drop_last()) + if total(l.last()) == total(pair.pos(x)) && !won_done(
            pair,
            w,
            l.last(),
        ) {
            stab(l.last())
        } else {
            0
        }
    }
}

/// The number of captures in `l` that lead to a draw.
pub open spec fn draw_caps(pair: Pair, x: int, l: Seq<Position>) -> nat
    decreases l.len(),
{
    if l.len() == 0 {
        0
    } else {
        draw_caps(pair, x, l.drop_last()) + if total(l.last()) < total(pair.pos(x)) && pair.cap_worth(l.last()) is Draw {
            1nat
        } else {
            0
        }
    }
}

/// The scratch values of node `x`: `count` numbers the updates it still
/// awaits, and one for each drawing capture; `seen` is the depth of the
/// slowest opponent win met so far.
pub open spec fn tally_ok(pair: Pair, w: Work, x: int) -> bool {
    let l = succs(pair.pos(x));
    if pair.has_lost_cap(x) {
        w.count[x] == UNBOUNDED
    } else {
        &&& w.count[x] < UNBOUNDED
        &&& w.count[x] * stab(pair.pos(x)) == open_weight(pair, w, x, l) + draw_caps(pair, x, l) * stab(pair.pos(x))
        &&& forall|s: Position| #[trigger]
            pair.cap(x, s) && pair.cap_worth(s) is Win ==> pair.cap_worth(s)->Win_0 <= w.seen[x]
        &&& forall|s: Position| #[trigger] pair.kid(x, s) && won_done(pair, w, s) ==> w.val[pair.node(s)] <= w.seen[x]
        &&& w.seen[x] != 0 ==> {
            ||| exists|s: Position| #[trigger] pair.cap(x, s) && pair.cap_worth(s) == Score::Win(w.seen[x] as nat)
            ||| exists|s: Position| #[trigger]
                pair.kid(x, s) && won_done(pair, w, s) && w.val[pair.node(s)] == w.seen[x]
        }
    }
}

/// Node `x` is lost: every move leads to a faster opponent win, the slowest
/// by one ply.
pub open spec fn loss_ok(pair: Pair, w: Work, x: int) -> bool {
    let v = w.val[x];
    &&& forall|s: Position| #[trigger] pair.kid(x, s) ==> won_done(pair, w, s) && w.val[pair.node(s)] < v
    &&& forall|s: Position| #[trigger] pair.cap(x, s) ==> pair.cap_worth(s) is Win && pair.cap_worth(s)->Win_0 < v
    &&& if succs(pair.pos(x)).len() == 0 {
        v == 0
    } else {
        &&& v > 0
        &&& {
            ||| exists|s: Position| #[trigger] pair.cap(x, s) && pair.cap_worth(s) == Score::Win((v - 1) as nat)
            ||| exists|s: Position| #[trigger] pair.kid(x, s) && w.val[pair.node(s)] == v - 1
        }
    }
}

/// Node `x` is won: some move leads to an opponent loss one ply faster, and
/// none to a faster one.
pub open spec fn win_ok(pair: Pair, w: Work, x: int) -> bool {
    let v = w.val[x];
    &&& v > 0
    &&& {
        ||| exists|s: Position| #[trigger] pair.cap(x, s) && pair.cap_worth(s) == Score::Loss((v - 1) as nat)
        ||| exists|s: Position| #[trigger]
            pair.kid(x, s) && w.done.contains(pair.node(s)) && w.val[pair.node(s)] == v - 1
    }
    &&& forall|s: Position| #[trigger] pair.cap(x, s) && pair.cap_worth(s) is Loss ==> v - 1 <= pair.cap_worth(s)->Loss_0
    &&& forall|s: Position| #[trigger]
        pair.kid(x, s) && w.done.contains(pair.node(s)) && w.val[pair.node(s)] % 2 == 0 ==> v - 1 <= w.val[pair.node(s)]
}

/// Node `x` is not decided yet: no quiet move is known to win in a depth that
/// a code can hold, and some move is still open.
pub open spec fn open_ok(pair: Pair, w: Work, x: int) -> bool {
    &&& forall|s: Position| #[trigger]
        pair.kid(x, s) && w.done.contains(pair.node(s)) && w.val[pair.node(s)] % 2 == 0 ==> w.val[pair.node(s)] == 0xfffe
    &&& !pair.has_lost_cap(x) && w.count[x] == 0 ==> forall|s: Position| !#[trigger] pair.kid(x, s)
}

/// All that holds of one live node while bucket `d` is processed.
pub open spec fn node_ok(pair: Pair, w: Work, d: int, x: int) -> bool {
    let v = w.val[x];
    &&& w.done.contains(x) ==> v != DRAW && v <= d
    &&& v < d ==> v == DRAW || w.done.contains(x)
    &&& v != DRAW && v % 2 == 0 ==> loss_ok(pair, w, x)
    &&& v != DRAW && v % 2 == 1 ==> win_ok(pair, w, x) && v <= d + 1
    &&& v == DRAW ==> open_ok(pair, w, x)
    &&& tally_ok(pair, w, x)
}

/// Entry `i` of bucket `e` has not been read when entry `j` of bucket `d` is
/// the next to be read.
pub open spec fn unread(w: Work, d: int, j: int, e: int, i: int) -> bool {
    &&& d <= e
    &&& 0 <= i < at(w.queue, e).len()
    &&& e == d ==> j <= i
}

/// An unread entry for node `x` is in bucket `e`.
pub open spec fn queued(w: Work, d: int, j: int, x: int, e: int, committed: bool) -> bool {
    exists|i: int| #[trigger] unread(w, d, j, e, i) && at(w.queue, e)[i] == (x as usize, committed)
}

/// What an unread entry of bucket `e` means.
pub open spec fn entry_ok(pair: Pair, w: Work, skip: int, e: int, x: int, committed: bool) -> bool {
    &&& pair.live(x)
    &&& e <= 0xffff
    &&& committed ==> e < 0xffff && w.val[x] == e && !w.done.contains(x) && x != skip
    &&& !committed ==> pair.tent(x, e as nat) || e == 0xffff && late(pair, w, x)
}

/// A quiet move from `x` leads to a node that is lost in 65534 plies.
pub open spec fn late(pair: Pair, w: Work, x: int) -> bool {
    exists|s: Position| #[trigger]
        pair.kid(x, s) && w.done.contains(pair.node(s)) && w.val[pair.node(s)] == 0xfffe
}

/// The queue holds what it must. Node `skip` has just been read.
pub open spec fn queue_ok(pair: Pair, w: Work, d: int, j: int, skip: int) -> bool {
    &&& forall|e: int, i: int| #[trigger]
        unread(w, d, j, e, i) ==> entry_ok(pair, w, skip, e, at(w.queue, e)[i].0 as int, at(w.queue, e)[i].1)
    &&& forall|e: int, i: int, k: int| #[trigger]
        unread(w, d, j, e, i) && #[trigger] unread(w, d, j, e, k) && i < k && at(w.queue, e)[i].1 && at(w.queue, e)[k].1
            ==> at(w.queue, e)[i].0 != at(w.queue, e)[k].0
    &&& forall|x: int| #[trigger]
        pair.live(x) && w.val[x] != DRAW && !w.done.contains(x) && x != skip ==> queued(w, d, j, x, w.val[x] as int, true)
    &&& forall|x: int, e: nat|
        pair.live(x) && w.val[x] == DRAW && #[trigger] pair.tent(x, e) ==> queued(w, d, j, x, e as int, false)
    &&& forall|x: int, s: Position|
        pair.live(x) && w.val[x] == DRAW && #[trigger] pair.kid(x, s) && w.done.contains(pair.node(s))
            && w.val[pair.node(s)] == 0xfffe ==> queued(w, d, j, x, 0xffff, false)
}

/// The invariant while bucket `d` is processed and entry `j` is next. Node
/// `skip`, if there is one, has been read and is decided, but not yet done.
pub open spec fn inv(pair: Pair, w: Work, d: int, j: int, skip: int) -> bool {
    &&& pair.wf()
    &&& 0 <= d
    &&& 0 <= j
    &&& pair.nodes() <= usize::MAX
    &&& w.val.len() == pair.nodes()
    &&& w.count.len() == pair.nodes()
    &&& w.seen.len() == pair.nodes()
    &&& forall|x: int| 0 <= x < pair.nodes() && !#[trigger] pair.live(x) ==> w.val[x] == DRAW
    &&& forall|x: int| #[trigger] w.done.contains(x) ==> pair.live(x)
    &&& forall|x: int| #[trigger] pair.live(x) ==> node_ok(pair, w, d, x)
    &&& queue_ok(pair, w, d, j, skip)
    &&& skip >= 0 ==> pair.live(skip) && w.val[skip] == d && d < 0xffff && !w.done.contains(skip)
}

/// The values below `d` are the worths decided below `d`.
pub open spec fn exact_below(pair: Pair, w: Work, d: nat) -> bool {
    forall|x: int| #[trigger]
        pair.live(x) ==> decided_below(pair.smaller, d)(pair.pos(x)) == cut(decode(w.val[x]), d)
}

/// What is processed stays so.
proof fn lemma_still_late(pair: Pair, w: Work, w2: Work, x: int)
    requires
        late(pair, w, x),
        forall|z: int| #[trigger] w.done.contains(z) ==> w2.done.contains(z) && w2.val[z] == w.val[z],
    ensures
        late(pair, w2, x),
{
    let s = choose|s: Position| #[trigger]
        pair.kid(x, s) && w.done.contains(pair.node(s)) && w.val[pair.node(s)] == 0xfffe;
    assert(pair.kid(x, s) && w2.done.contains(pair.node(s)) && w2.val[pair.node(s)] == 0xfffe);
}

/// Reading a committed entry.
pub proof fn lemma_read_committed(pair: Pair, w: Work, d: int, j: int, x: int)
    requires
        inv(pair, w, d, j, -1),
        0 <= j < at(w.queue, d).len(),
        at(w.queue, d)[j] == (x as usize, true),
        0 <= x <= usize::MAX,
    ensures
        inv(pair, w, d, j + 1, x),
{
    assert(unread(w, d, j, d, j));
    assert forall|e: int, i: int| #[trigger] unread(w, d, j + 1, e, i) implies entry_ok(
        pair,
        w,
        x,
        e,
        at(w.queue, e)[i].0 as int,
        at(w.queue, e)[i].1,
    ) by {
        assert(unread(w, d, j, e, i));
        if at(w.queue, e)[i].1 && at(w.queue, e)[i].0 == x {
            assert(w.val[x] == e && w.val[x] == d);
            assert(unread(w, d, j, d, i) && j < i);
        }
    }
    assert forall|e: int, i: int, k: int| #[trigger]
        unread(w, d, j + 1, e, i) && #[trigger] unread(w, d, j + 1, e, k) && i < k && at(w.queue, e)[i].1 && at(
            w.queue,
            e,
        )[k].1 implies at(w.queue, e)[i].0 != at(w.queue, e)[k].0 by {
        assert(unread(w, d, j, e, i) && unread(w, d, j, e, k));
    }
    assert forall|y: int, e: int, c: bool| queued(w, d, j, y, e, c) && 0 <= y <= usize::MAX && (y != x || !c) implies #[trigger] queued(
        w,
        d,
        j + 1,
        y,
        e,
        c,
    ) by {
        let i = choose|i: int| #[trigger] unread(w, d, j, e, i) && at(w.queue, e)[i] == (y as usize, c);
        assert(unread(w, d, j + 1, e, i));
    }
}

/// Passing over a tentative entry of a node that is decided.
pub proof fn lemma_read_stale(pair: Pair, w: Work, d: int, j: int, x: int)
    requires
        inv(pair, w, d, j, -1),
        0 <= j < at(w.queue, d).len(),
        at(w.queue, d)[j] == (x as usize, false),
        0 <= x <= usize::MAX,
        w.val[x] != DRAW,
    ensures
        inv(pair, w, d, j + 1, -1),
{
    assert(unread(w, d, j, d, j));
    assert forall|e: int, i: int| #[trigger] unread(w, d, j + 1, e, i) implies unread(w, d, j, e, i) by {}
    assert forall|y: int, e: int, c: bool| queued(w, d, j, y, e, c) && 0 <= y <= usize::MAX && (y != x || c) implies #[trigger] queued(
        w,
        d,
        j + 1,
        y,
        e,
        c,
    ) by {
        let i = choose|i: int| #[trigger] unread(w, d, j, e, i) && at(w.queue, e)[i] == (y as usize, c);
        assert(unread(w, d, j + 1, e, i));
    }
}

/// A capture leads to a worth whose parity tells losses from wins.
pub proof fn lemma_cap_parity(pair: Pair, s: Position)
    requires
        pair.wf(),
    ensures
        match pair.cap_worth(s) {
            Score::Win(d) => d % 2 == 1 && d < 0xffff,
            Score::Loss(d) => d % 2 == 0 && d < 0xffff,
            Score::Draw => true,
        },
{
    assert(match (pair.smaller)(s) {
        Score::Win(d) => d % 2 == 1 && d < 0xffff,
        Score::Loss(d) => d % 2 == 0 && d < 0xffff,
        Score::Draw => true,
    });
}

/// The parity of the depth at which captures decide a node.
proof fn lemma_tent_parity(pair: Pair, x: int, e: nat)
    requires
        pair.wf(),
        pair.tent(x, e),
    ensures
        pair.has_lost_cap(x) <==> e % 2 == 1,
        e <= 0xffff,
{
    if pair.has_lost_cap(x) {
        let s = choose|s: Position| #[trigger] pair.cap(x, s) && pair.cap_worth(s) == Score::Loss((e - 1) as nat);
        lemma_cap_parity(pair, s);
    } else if succs(pair.pos(x)).len() > 0 {
        let s = choose|s: Position| #[trigger] pair.cap(x, s) && pair.cap_worth(s) == Score::Win((e - 1) as nat);
        lemma_cap_parity(pair, s);
    }
}

/// Setting the value of a node that nothing has processed disturbs no other.
proof fn lemma_node_ok_frame(pair: Pair, w: Work, w2: Work, d: int, y: int)
    requires
        node_ok(pair, w, d, y),
        w2.done == w.done,
        w2.count == w.count,
        w2.seen == w.seen,
        w2.val[y] == w.val[y],
        forall|z: int| #[trigger] w.done.contains(z) ==> w2.val[z] == w.val[z],
    ensures
        node_ok(pair, w2, d, y),
{
    assert forall|s: Position| won_done(pair, w2, s) == won_done(pair, w, s) by {}
    lemma_open_weight_same(pair, w, w2, y, succs(pair.pos(y)));
    if w.val[y] != DRAW && w.val[y] % 2 == 0 {
        let v = w.val[y];
        if succs(pair.pos(y)).len() > 0 && exists|s: Position| #[trigger] pair.kid(y, s) && w.val[pair.node(s)] == v - 1 {
            let s = choose|s: Position| #[trigger] pair.kid(y, s) && w.val[pair.node(s)] == v - 1;
            assert(won_done(pair, w, s));
            assert(w2.val[pair.node(s)] == v - 1);
        }
    }
}

proof fn lemma_open_weight_same(pair: Pair, w: Work, w2: Work, x: int, l: Seq<Position>)
    requires
        forall|i: int| 0 <= i < l.len() && total(#[trigger] l[i]) == total(pair.pos(x)) ==> won_done(pair, w2, l[i])
            == won_done(pair, w, l[i]),
    ensures
        open_weight(pair, w2, x, l) == open_weight(pair, w, x, l),
    decreases l.len(),
{
    if l.len() > 0 {
        let r = l.drop_last();
        assert forall|i: int| 0 <= i < r.len() && total(#[trigger] r[i]) == total(pair.pos(x)) implies won_done(
            pair,
            w2,
            r[i],
        ) == won_done(pair, w, r[i]) by {
            assert(r[i] == l[i]);
        }
        lemma_open_weight_same(pair, w, w2, x, r);
        assert(l.last() == l[l.len() - 1]);
    }
}

/// Committing a tentative entry.
pub proof fn lemma_commit(pair: Pair, w: Work, d: int, j: int, x: int, w2: Work)
    requires
        inv(pair, w, d, j, -1),
        0 <= j < at(w.queue, d).len(),
        at(w.queue, d)[j] == (x as usize, false),
        0 <= x <= usize::MAX,
        w.val[x] == DRAW,
        d < 0xffff,
        w2 == (Work { val: w.val.update(x, d as u16), ..w }),
    ensures
        inv(pair, w2, d, j + 1, x),
{
    assert(unread(w, d, j, d, j));
    assert(pair.live(x) && pair.tent(x, d as nat));
    assert(node_ok(pair, w, d, x));
    assert(!w.done.contains(x));
    lemma_tent_parity(pair, x, d as nat);
    assert forall|y: int| #[trigger] pair.live(y) && y != x implies node_ok(pair, w2, d, y) by {
        lemma_node_ok_frame(pair, w, w2, d, y);
    }
    assert forall|s: Position| #[trigger] won_done(pair, w2, s) == won_done(pair, w, s) by {
        if w.done.contains(pair.node(s)) {
            assert(pair.live(pair.node(s)));
        }
    }
    lemma_open_weight_same(pair, w, w2, x, succs(pair.pos(x)));
    if pair.has_lost_cap(x) {
        assert(win_ok(pair, w2, x));
    } else {
        assert(loss_ok(pair, w2, x));
    }
    assert(node_ok(pair, w2, d, x));
    assert forall|e: int, i: int| #[trigger] unread(w2, d, j + 1, e, i) implies entry_ok(
        pair,
        w2,
        x,
        e,
        at(w2.queue, e)[i].0 as int,
        at(w2.queue, e)[i].1,
    ) by {
        assert(unread(w, d, j, e, i));
        if late(pair, w, at(w.queue, e)[i].0 as int) {
            lemma_still_late(pair, w, w2, at(w.queue, e)[i].0 as int);
        }
    }
    assert forall|e: int, i: int, k: int| #[trigger]
        unread(w2, d, j + 1, e, i) && #[trigger] unread(w2, d, j + 1, e, k) && i < k && at(w2.queue, e)[i].1 && at(
            w2.queue,
            e,
        )[k].1 implies at(w2.queue, e)[i].0 != at(w2.queue, e)[k].0 by {
        assert(unread(w, d, j, e, i) && unread(w, d, j, e, k));
    }
    assert forall|y: int, e: int, c: bool| queued(w, d, j, y, e, c) && 0 <= y <= usize::MAX && (y != x || c) implies #[trigger] queued(
        w2,
        d,
        j + 1,
        y,
        e,
        c,
    ) by {
        let i = choose|i: int| #[trigger] unread(w, d, j, e, i) && at(w.queue, e)[i] == (y as usize, c);
        assert(unread(w2, d, j + 1, e, i));
    }
}

/// Where captures win, one wins fastest.
proof fn lemma_tent_exists(pair: Pair, x: int, n: nat)
    requires
        exists|s: Position| #[trigger] pair.cap(x, s) && pair.cap_worth(s) is Loss && pair.cap_worth(s)->Loss_0 <= n,
    ensures
        exists|e: nat| pair.tent(x, e),
    decreases n,
{
    let s = choose|s: Position| #[trigger]
        pair.cap(x, s) && pair.cap_worth(s) is Loss && pair.cap_worth(s)->Loss_0 <= n;
    assert(pair.has_lost_cap(x));
    if exists|t: Position| #[trigger] pair.cap(x, t) && pair.cap_worth(t) is Loss && pair.cap_worth(t)->Loss_0 < n {
        let t = choose|t: Position| #[trigger]
            pair.cap(x, t) && pair.cap_worth(t) is Loss && pair.cap_worth(t)->Loss_0 < n;
        assert(pair.cap_worth(t)->Loss_0 <= (n - 1) as nat);
        lemma_tent_exists(pair, x, (n - 1) as nat);
    } else {
        assert(pair.cap_worth(s) == Score::Loss(n));
        assert(pair.tent(x, n + 1));
    }
}

/// A node that some capture wins for, and that is still open, can be decided
/// by captures at the present depth or later.
proof fn lemma_open_lost_cap(pair: Pair, w: Work, d: int, j: int, skip: int, x: int, s: Position)
    requires
        inv(pair, w, d, j, skip),
        pair.live(x),
        w.val[x] == DRAW,
        pair.cap(x, s),
        pair.cap_worth(s) is Loss,
    ensures
        d <= pair.cap_worth(s)->Loss_0 + 1,
        d % 2 == 0 ==> d <= pair.cap_worth(s)->Loss_0,
{
    lemma_tent_exists(pair, x, pair.cap_worth(s)->Loss_0);
    let e = choose|e: nat| pair.tent(x, e);
    assert(pair.has_lost_cap(x));
    lemma_tent_parity(pair, x, e);
    assert(queued(w, d, j, x, e as int, false));
    lemma_cap_parity(pair, s);
}

/// The queue grew by entries at the end of later buckets only.
pub open spec fn grew(w: Work, w2: Work, d: int) -> bool {
    &&& forall|e: int| at(w.queue, e).len() <= #[trigger] at(w2.queue, e).len()
    &&& forall|e: int, i: int| 0 <= i < at(w.queue, e).len() ==> #[trigger] at(w2.queue, e)[i] == at(w.queue, e)[i]
    &&& forall|e: int| e <= d ==> #[trigger] at(w2.queue, e) == at(w.queue, e)
}

/// Entry `i` of bucket `e` is new.
pub open spec fn fresh(w: Work, w2: Work, e: int, i: int) -> bool {
    at(w.queue, e).len() <= i < at(w2.queue, e).len()
}

/// The effect of processing the lost node `x` at depth `d`: its predecessors
/// that are still open are won one ply later, and queued. A depth of 65535,
/// which no code can hold, is queued without being set.
pub open spec fn after_loss(pair: Pair, w: Work, w2: Work, d: int, x: int, preds: Seq<usize>) -> bool {
    &&& w2.count == w.count
    &&& w2.seen == w.seen
    &&& w2.done == w.done.insert(x)
    &&& w2.val.len() == w.val.len()
    &&& forall|y: int|
        0 <= y < w.val.len() ==> #[trigger] w2.val[y] == (if occurrences(preds, y) > 0 && w.val[y] == DRAW {
            (d + 1) as u16
        } else {
            w.val[y]
        })
    &&& grew(w, w2, d)
    &&& forall|e: int, i: int| #[trigger]
        fresh(w, w2, e, i) ==> {
            let (y, committed) = at(w2.queue, e)[i];
            &&& e == d + 1
            &&& 0 <= y < w.val.len()
            &&& occurrences(preds, y as int) > 0
            &&& w.val[y as int] == DRAW
            &&& committed == (d + 1 < 0xffff)
        }
    &&& forall|e: int, i: int, k: int| #[trigger]
        fresh(w, w2, e, i) && #[trigger] fresh(w, w2, e, k) && i < k && d + 1 < 0xffff ==> at(w2.queue, e)[i].0 != at(
            w2.queue,
            e,
        )[k].0
    &&& forall|y: int|
        0 <= y < w.val.len() && #[trigger] occurrences(preds, y) > 0 && w.val[y] == DRAW ==> exists|i: int| #[trigger]
            fresh(w, w2, d + 1, i) && at(w2.queue, d + 1)[i].0 == y
}

/// What was queued stays queued while later buckets grow.
proof fn lemma_still_queued(w: Work, w2: Work, d: int, j: int, x: int, e: int, committed: bool)
    requires
        grew(w, w2, d),
        queued(w, d, j, x, e, committed),
    ensures
        queued(w2, d, j, x, e, committed),
{
    let i = choose|i: int| #[trigger] unread(w, d, j, e, i) && at(w.queue, e)[i] == (x as usize, committed);
    assert(at(w.queue, e).len() <= at(w2.queue, e).len());
    assert(unread(w2, d, j, e, i));
    assert(at(w2.queue, e)[i] == at(w.queue, e)[i]);
}

/// Processing a lost node keeps the invariant: the nodes.
proof fn lemma_loss_nodes(pair: Pair, w: Work, d: int, j: int, x: int, preds: Seq<usize>, w2: Work, y: int)
    requires
        inv(pair, w, d, j, x),
        0 <= x,
        d % 2 == 0,
        nodes_of(pair, preds, quiet_preds(pair.pos(x))),
        after_loss(pair, w, w2, d, x, preds),
        pair.live(y),
    ensures
        node_ok(pair, w2, d, y),
{
    assert(node_ok(pair, w, d, y));
    lemma_predecessors(pair, y, x, preds);
    assert(w2.val[x] == d);
    assert forall|z: int| #[trigger] w.done.contains(z) implies w2.val[z] == w.val[z] by {
        assert(pair.live(z));
        assert(node_ok(pair, w, d, z));
    }
    assert forall|s: Position| #[trigger] won_done(pair, w2, s) == won_done(pair, w, s) by {}
    lemma_open_weight_same(pair, w, w2, y, succs(pair.pos(y)));
    let v = w.val[y];
    assert(tally_ok(pair, w2, y)) by {
        if !pair.has_lost_cap(y) && w.seen[y] != 0 {
            if exists|s: Position| #[trigger]
                pair.kid(y, s) && won_done(pair, w, s) && w.val[pair.node(s)] == w.seen[y] {
                let s = choose|s: Position| #[trigger]
                    pair.kid(y, s) && won_done(pair, w, s) && w.val[pair.node(s)] == w.seen[y];
                assert(pair.kid(y, s) && won_done(pair, w2, s) && w2.val[pair.node(s)] == w2.seen[y]);
            }
        }
    }
    if v != DRAW {
        assert(w2.val[y] == v);
        if v % 2 == 0 {
            if succs(pair.pos(y)).len() > 0 && exists|s: Position| #[trigger]
                pair.kid(y, s) && w.val[pair.node(s)] == v - 1 {
                let s = choose|s: Position| #[trigger] pair.kid(y, s) && w.val[pair.node(s)] == v - 1;
                assert(won_done(pair, w, s));
                assert(w2.val[pair.node(s)] == v - 1);
            }
            assert(loss_ok(pair, w2, y));
        } else {
            if exists|s: Position| #[trigger]
                pair.kid(y, s) && w.done.contains(pair.node(s)) && w.val[pair.node(s)] == v - 1 {
                let s = choose|s: Position| #[trigger]
                    pair.kid(y, s) && w.done.contains(pair.node(s)) && w.val[pair.node(s)] == v - 1;
                assert(w2.done.contains(pair.node(s)) && w2.val[pair.node(s)] == v - 1);
            }
            assert forall|s: Position| #[trigger]
                pair.kid(y, s) && w2.done.contains(pair.node(s)) && w2.val[pair.node(s)] % 2 == 0 implies v - 1
                <= w2.val[pair.node(s)] by {
                if pair.node(s) != x {
                    assert(w.done.contains(pair.node(s)));
                }
            }
            assert(win_ok(pair, w2, y));
        }
    } else if occurrences(preds, y) > 0 && d + 1 < 0xffff {
        assert(w2.val[y] == d + 1);
        let s = choose|s: Position| #[trigger] pair.kid(y, s) && pair.node(s) == x;
        assert(pair.kid(y, s) && w2.done.contains(pair.node(s)) && w2.val[pair.node(s)] == d);
        assert forall|t: Position| #[trigger] pair.cap(y, t) && pair.cap_worth(t) is Loss implies d <= pair.cap_worth(t)->Loss_0 by {
            lemma_open_lost_cap(pair, w, d, j, x, y, t);
        }
        assert forall|t: Position| #[trigger]
            pair.kid(y, t) && w2.done.contains(pair.node(t)) && w2.val[pair.node(t)] % 2 == 0 implies d <= w2.val[pair.node(
            t,
        )] by {
            if pair.node(t) != x {
                assert(w.done.contains(pair.node(t)));
            }
        }
        assert(win_ok(pair, w2, y));
        assert(!w.done.contains(y));
    } else {
        assert(w2.val[y] == DRAW);
        assert forall|t: Position| #[trigger]
            pair.kid(y, t) && w2.done.contains(pair.node(t)) && w2.val[pair.node(t)] % 2 == 0 implies w2.val[pair.node(
            t,
        )] == 0xfffe by {
            if pair.node(t) != x {
                assert(w.done.contains(pair.node(t)));
            }
        }
        assert(open_ok(pair, w2, y));
    }
}

/// Processing a lost node keeps the invariant.
pub proof fn lemma_loss_item(pair: Pair, w: Work, d: int, j: int, x: int, preds: Seq<usize>, w2: Work)
    requires
        inv(pair, w, d, j, x),
        0 <= x,
        d % 2 == 0,
        nodes_of(pair, preds, quiet_preds(pair.pos(x))),
        after_loss(pair, w, w2, d, x, preds),
    ensures
        inv(pair, w2, d, j, -1),
{
    assert forall|z: int| #[trigger] w.done.contains(z) implies w2.done.contains(z) && w2.val[z] == w.val[z] by {
        assert(pair.live(z));
        assert(node_ok(pair, w, d, z));
    }
    assert forall|y: int| #[trigger] pair.live(y) implies node_ok(pair, w2, d, y) by {
        lemma_loss_nodes(pair, w, d, j, x, preds, w2, y);
    }
    assert forall|y: int| #[trigger] occurrences(preds, y) > 0 implies pair.live(y) by {
        lemma_occurs(preds, y);
        let k = choose|k: int| 0 <= k < preds.len() && #[trigger] preds[k] == y;
        assert(in_pair(pair.a, pair.b, quiet_preds(pair.pos(x))[k]));
        lemma_node(pair, quiet_preds(pair.pos(x))[k]);
    }
    assert forall|y: int| 0 <= y < pair.nodes() && !#[trigger] pair.live(y) implies w2.val[y] == DRAW by {
        assert(w2.val[y] == w.val[y]);
    }
    assert forall|e: int, i: int| #[trigger] unread(w2, d, j, e, i) && !fresh(w, w2, e, i) implies unread(w, d, j, e, i) && at(
        w2.queue,
        e,
    )[i] == at(w.queue, e)[i] by {}
    assert forall|e: int, i: int| #[trigger] unread(w2, d, j, e, i) implies entry_ok(
        pair,
        w2,
        -1,
        e,
        at(w2.queue, e)[i].0 as int,
        at(w2.queue, e)[i].1,
    ) by {
        let y = at(w2.queue, e)[i].0 as int;
        if fresh(w, w2, e, i) {
            assert(pair.live(y));
            assert(node_ok(pair, w, d, y));
            assert(w2.val[y] == (d + 1) as u16);
            if d + 1 == 0xffff {
                lemma_predecessors(pair, y, x, preds);
                let s = choose|s: Position| #[trigger] pair.kid(y, s) && pair.node(s) == x;
                assert(w2.val[x] == d);
                assert(pair.kid(y, s) && w2.done.contains(pair.node(s)) && w2.val[pair.node(s)] == 0xfffe);
            }
        } else {
            assert(unread(w, d, j, e, i));
            assert(w2.val[y] == w2.val[y]);
            if late(pair, w, y) {
                lemma_still_late(pair, w, w2, y);
            }
        }
    }
    assert forall|e: int, i: int, k: int| #[trigger]
        unread(w2, d, j, e, i) && #[trigger] unread(w2, d, j, e, k) && i < k && at(w2.queue, e)[i].1 && at(w2.queue, e)[k].1 implies at(
        w2.queue,
        e,
    )[i].0 != at(w2.queue, e)[k].0 by {
        if fresh(w, w2, e, i) {
            assert(fresh(w, w2, e, k));
        } else {
            assert(unread(w, d, j, e, i));
            if !fresh(w, w2, e, k) {
                assert(unread(w, d, j, e, k));
            }
        }
    }
    assert forall|y: int| #[trigger] pair.live(y) && w2.val[y] != DRAW && !w2.done.contains(y) implies queued(
        w2,
        d,
        j,
        y,
        w2.val[y] as int,
        true,
    ) by {
        if w.val[y] != DRAW {
            assert(queued(w, d, j, y, w.val[y] as int, true));
            lemma_still_queued(w, w2, d, j, y, w.val[y] as int, true);
        } else {
            assert(occurrences(preds, y) > 0);
            let i = choose|i: int| #[trigger] fresh(w, w2, d + 1, i) && at(w2.queue, d + 1)[i].0 == y;
            assert(unread(w2, d, j, d + 1, i));
        }
    }
    assert forall|y: int, e: nat| pair.live(y) && w2.val[y] == DRAW && #[trigger] pair.tent(y, e) implies queued(
        w2,
        d,
        j,
        y,
        e as int,
        false,
    ) by {
        assert(w.val[y] == DRAW);
        assert(queued(w, d, j, y, e as int, false));
        lemma_still_queued(w, w2, d, j, y, e as int, false);
    }
    assert forall|y: int, s: Position|
        pair.live(y) && w2.val[y] == DRAW && #[trigger] pair.kid(y, s) && w2.done.contains(pair.node(s)) && w2.val[pair.node(
            s,
        )] == 0xfffe implies queued(w2, d, j, y, 0xffff, false) by {
        assert(w.val[y] == DRAW);
        if pair.node(s) != x {
            assert(w.done.contains(pair.node(s)));
            assert(pair.live(pair.node(s)));
            assert(node_ok(pair, w, d, pair.node(s)));
            assert(queued(w, d, j, y, 0xffff, false));
            lemma_still_queued(w, w2, d, j, y, 0xffff, false);
        } else {
            assert(w2.val[x] == d);
            lemma_predecessors(pair, y, x, preds);
            assert(occurrences(preds, y) > 0);
            let i = choose|i: int| #[trigger] fresh(w, w2, d + 1, i) && at(w2.queue, d + 1)[i].0 == y;
            assert(unread(w2, d, j, d + 1, i));
        }
    }
}

/// The effect of processing the won node `x` at depth `d`: its predecessors
/// count it off, and those that have nothing left to await are lost one ply
/// after the slowest opponent win, and queued.
pub open spec fn after_win(pair: Pair, w: Work, w2: Work, d: int, x: int, preds: Seq<usize>) -> bool {
    &&& w2.done == w.done.insert(x)
    &&& w2.val.len() == w.val.len()
    &&& w2.count.len() == w.count.len()
    &&& w2.seen.len() == w.seen.len()
    &&& forall|y: int|
        0 <= y < w.val.len() ==> #[trigger] w2.count[y] == (if w.count[y] == UNBOUNDED {
            UNBOUNDED as int
        } else {
            w.count[y] - occurrences(preds, y)
        })
    &&& forall|y: int|
        0 <= y < w.val.len() ==> #[trigger] w2.seen[y] == (if occurrences(preds, y) > 0 && w.seen[y] < d {
            d
        } else {
            w.seen[y] as int
        })
    &&& forall|y: int|
        0 <= y < w.val.len() ==> #[trigger] w2.val[y] == (if exhausted(w, w2, preds, y) {
            w2.seen[y] + 1
        } else {
            w.val[y] as int
        })
    &&& grew(w, w2, d)
    &&& forall|e: int, i: int| #[trigger]
        fresh(w, w2, e, i) ==> {
            let (y, committed) = at(w2.queue, e)[i];
            &&& 0 <= y < w.val.len()
            &&& exhausted(w, w2, preds, y as int)
            &&& e == w2.val[y as int]
            &&& committed
        }
    &&& forall|e: int, i: int, k: int| #[trigger]
        fresh(w, w2, e, i) && #[trigger] fresh(w, w2, e, k) && i < k ==> at(w2.queue, e)[i].0 != at(w2.queue, e)[k].0
    &&& forall|y: int|
        0 <= y < w.val.len() && #[trigger] exhausted(w, w2, preds, y) ==> exists|i: int| #[trigger]
            fresh(w, w2, w2.val[y] as int, i) && at(w2.queue, w2.val[y] as int)[i].0 == y
}

/// Node `y` was open and has just counted off the last update it awaited.
pub open spec fn exhausted(w: Work, w2: Work, preds: Seq<usize>, y: int) -> bool {
    &&& occurrences(preds, y) > 0
    &&& w.count[y] != UNBOUNDED
    &&& w2.count[y] == 0
    &&& w.val[y] == DRAW
}

/// Processing node `y` as a win takes its class off the open weight.
proof fn lemma_open_weight_less(pair: Pair, w: Work, w2: Work, x: int, y: int, l: Seq<Position>)
    requires
        pair.wf(),
        pair.live(x),
        pair.live(y),
        !w.done.contains(y),
        w2.done == w.done.insert(y),
        w2.val[y] % 2 == 1,
        forall|z: int| #[trigger] w.done.contains(z) ==> w2.val[z] == w.val[z],
        forall|i: int| 0 <= i < l.len() ==> succs(pair.pos(x)).contains(#[trigger] l[i]),
    ensures
        open_weight(pair, w, x, l) == open_weight(pair, w2, x, l) + class_weight(l, pair.pos(y)),
    decreases l.len(),
{
    if l.len() > 0 {
        let r = l.drop_last();
        assert forall|i: int| 0 <= i < r.len() implies succs(pair.pos(x)).contains(#[trigger] r[i]) by {
            assert(r[i] == l[i]);
        }
        lemma_open_weight_less(pair, w, w2, x, y, r);
        let s = l[l.len() - 1];
        assert(l.last() == s);
        lemma_moves(pair, x, s);
        lemma_node_pos(pair, x);
        lemma_node_pos(pair, y);
        if pair.kid(x, s) {
            lemma_same_node(pair, s, pair.pos(y));
            assert(pair.node(s) == y <==> canon(s) == canon(pair.pos(y)));
        } else if canon(s) == canon(pair.pos(y)) {
            lemma_same_canon_counts(s, pair.pos(y));
        }
    }
}

/// Nothing open has no weight, and no weight leaves nothing open.
proof fn lemma_open_weight_zero(pair: Pair, w: Work, x: int, l: Seq<Position>)
    requires
        open_weight(pair, w, x, l) == 0,
        forall|i: int| 0 <= i < l.len() ==> (#[trigger] l[i]).wf(),
    ensures
        forall|i: int| 0 <= i < l.len() && total(#[trigger] l[i]) == total(pair.pos(x)) ==> won_done(pair, w, l[i]),
    decreases l.len(),
{
    if l.len() > 0 {
        let r = l.drop_last();
        assert forall|i: int| 0 <= i < r.len() implies (#[trigger] r[i]).wf() by {
            assert(r[i] == l[i]);
        }
        assert(l[l.len() - 1].wf());
        lemma_stab_positive(l.last());
        lemma_open_weight_zero(pair, w, x, r);
        assert forall|i: int| 0 <= i < l.len() && total(#[trigger] l[i]) == total(pair.pos(x)) implies won_done(
            pair,
            w,
            l[i],
        ) by {
            if i < r.len() {
                assert(r[i] == l[i]);
            }
        }
    }
}

/// Without drawing captures no capture draws.
pub proof fn lemma_draw_caps_zero(pair: Pair, x: int, l: Seq<Position>)
    requires
        draw_caps(pair, x, l) == 0,
    ensures
        forall|i: int|
            0 <= i < l.len() && total(#[trigger] l[i]) < total(pair.pos(x)) ==> !(pair.cap_worth(l[i]) is Draw),
    decreases l.len(),
{
    if l.len() > 0 {
        let r = l.drop_last();
        lemma_draw_caps_zero(pair, x, r);
        assert forall|i: int| 0 <= i < l.len() && total(#[trigger] l[i]) < total(pair.pos(x)) implies !(pair.cap_worth(
            l[i],
        ) is Draw) by {
            if i < r.len() {
                assert(r[i] == l[i]);
            }
        }
    }
}

/// A node that awaits nothing has only moves to processed opponent wins.
proof fn lemma_nothing_open(pair: Pair, w: Work, x: int)
    requires
        pair.wf(),
        pair.live(x),
        !pair.has_lost_cap(x),
        tally_ok(pair, w, x),
        w.count[x] == 0,
    ensures
        forall|s: Position| #[trigger] pair.kid(x, s) ==> won_done(pair, w, s),
        forall|s: Position| #[trigger] pair.cap(x, s) ==> pair.cap_worth(s) is Win,
{
    let l = succs(pair.pos(x));
    lemma_node_pos(pair, x);
    lemma_stab_positive(pair.pos(x));
    let (n, k) = (draw_caps(pair, x, l), stab(pair.pos(x)));
    assert(w.count[x] * k == 0) by (nonlinear_arith)
        requires
            w.count[x] == 0,
    ;
    assert(n * k == 0 ==> n == 0) by (nonlinear_arith)
        requires
            k > 0,
    ;
    assert(n * k >= 0) by (nonlinear_arith);
    assert forall|i: int| 0 <= i < l.len() implies (#[trigger] l[i]).wf() by {
        assert(l.contains(l[i]));
        lemma_moves(pair, x, l[i]);
    }
    lemma_open_weight_zero(pair, w, x, l);
    lemma_draw_caps_zero(pair, x, l);
    assert forall|s: Position| #[trigger] pair.kid(x, s) implies won_done(pair, w, s) by {
        let i = choose|i: int| 0 <= i < l.len() && l[i] == s;
        assert(total(l[i]) == total(pair.pos(x)));
    }
    assert forall|s: Position| #[trigger] pair.cap(x, s) implies pair.cap_worth(s) is Win by {
        let i = choose|i: int| 0 <= i < l.len() && l[i] == s;
        assert(total(l[i]) < total(pair.pos(x)));
    }
}

/// A node awaits every update that is still to come.
pub proof fn lemma_awaits(pair: Pair, w: Work, d: int, j: int, x: int, preds: Seq<usize>, y: int)
    requires
        inv(pair, w, d, j, x),
        0 <= x,
        d % 2 == 1,
        nodes_of(pair, preds, quiet_preds(pair.pos(x))),
        pair.live(y),
        w.count[y] != UNBOUNDED,
    ensures
        occurrences(preds, y) <= w.count[y],
        !pair.has_lost_cap(y),
        w.seen[y] < 0xfffe,
{
    assert(node_ok(pair, w, d, y));
    let l = succs(pair.pos(y));
    lemma_node_pos(pair, y);
    lemma_stab_positive(pair.pos(y));
    lemma_predecessors(pair, y, x, preds);
    let w2 = Work { done: w.done.insert(x), ..w };
    assert forall|i: int| 0 <= i < l.len() implies l.contains(#[trigger] l[i]) by {}
    lemma_open_weight_less(pair, w, w2, y, x, l);
    let (c, n, k, dr) = (w.count[y] as int, occurrences(preds, y) as int, stab(pair.pos(y)) as int, draw_caps(pair, y, l) as int);
    assert(n <= c) by (nonlinear_arith)
        requires
            c * k >= n * k + dr * k,
            k > 0,
            dr >= 0,
    ;
    if w.seen[y] != 0 {
        if exists|s: Position| #[trigger] pair.cap(y, s) && pair.cap_worth(s) == Score::Win(w.seen[y] as nat) {
            let s = choose|s: Position| #[trigger]
                pair.cap(y, s) && pair.cap_worth(s) == Score::Win(w.seen[y] as nat);
            lemma_cap_parity(pair, s);
        } else {
            let s = choose|s: Position| #[trigger]
                pair.kid(y, s) && won_done(pair, w, s) && w.val[pair.node(s)] == w.seen[y];
            assert(pair.live(pair.node(s)));
            assert(node_ok(pair, w, d, pair.node(s)));
        }
    }
}

/// Processing a won node keeps the scratch values right.
proof fn lemma_win_tally(pair: Pair, w: Work, d: int, j: int, x: int, preds: Seq<usize>, w2: Work, y: int)
    requires
        inv(pair, w, d, j, x),
        0 <= x,
        d % 2 == 1,
        nodes_of(pair, preds, quiet_preds(pair.pos(x))),
        after_win(pair, w, w2, d, x, preds),
        pair.live(y),
        w2.val[x] == d,
        forall|z: int| #[trigger] w.done.contains(z) ==> w2.val[z] == w.val[z],
    ensures
        tally_ok(pair, w2, y),
{
    assert(node_ok(pair, w, d, y));
    if !pair.has_lost_cap(y) {
        let l = succs(pair.pos(y));
        lemma_awaits(pair, w, d, j, x, preds, y);
        lemma_predecessors(pair, y, x, preds);
        assert forall|i: int| 0 <= i < l.len() implies l.contains(#[trigger] l[i]) by {}
        lemma_open_weight_less(pair, w, w2, y, x, l);
        let n = occurrences(preds, y);
        let (c, c2, k, dr) = (w.count[y] as int, w2.count[y] as int, stab(pair.pos(y)) as int, draw_caps(pair, y, l) as int);
        let (o, o2) = (open_weight(pair, w, y, l) as int, open_weight(pair, w2, y, l) as int);
        assert(c2 * k == o2 + dr * k) by (nonlinear_arith)
            requires
                c * k == o + dr * k,
                o == o2 + n * k,
                c2 == c - n,
        ;
        assert forall|s: Position| #[trigger] pair.kid(y, s) && won_done(pair, w2, s) implies w2.val[pair.node(s)] <= w2.seen[y] by {
            if pair.node(s) != x {
                assert(won_done(pair, w, s));
            }
        }
        if w2.seen[y] != 0 {
            if n > 0 && w.seen[y] < d {
                let s = choose|s: Position| #[trigger] pair.kid(y, s) && pair.node(s) == x;
                assert(pair.kid(y, s) && won_done(pair, w2, s) && w2.val[pair.node(s)] == w2.seen[y]);
            } else if !(exists|s: Position| #[trigger]
                pair.cap(y, s) && pair.cap_worth(s) == Score::Win(w.seen[y] as nat)) {
                let s = choose|s: Position| #[trigger]
                    pair.kid(y, s) && won_done(pair, w, s) && w.val[pair.node(s)] == w.seen[y];
                assert(pair.kid(y, s) && won_done(pair, w2, s) && w2.val[pair.node(s)] == w2.seen[y]);
            }
        }
    }
}

/// Processing a won node keeps the invariant: the nodes.
proof fn lemma_win_nodes(pair: Pair, w: Work, d: int, j: int, x: int, preds: Seq<usize>, w2: Work, y: int)
    requires
        inv(pair, w, d, j, x),
        0 <= x,
        d % 2 == 1,
        nodes_of(pair, preds, quiet_preds(pair.pos(x))),
        after_win(pair, w, w2, d, x, preds),
        pair.live(y),
    ensures
        node_ok(pair, w2, d, y),
        exhausted(w, w2, preds, y) ==> d < w2.val[y] < 0xffff,
{
    assert(node_ok(pair, w, d, y));
    lemma_predecessors(pair, y, x, preds);
    assert(w2.val[x] == d);
    assert forall|z: int| #[trigger] w.done.contains(z) implies w2.val[z] == w.val[z] by {
        assert(pair.live(z));
        assert(node_ok(pair, w, d, z));
    }
    lemma_win_tally(pair, w, d, j, x, preds, w2, y);
    let v = w.val[y];
    assert forall|s: Position| won_done(pair, w, s) implies #[trigger] won_done(pair, w2, s) by {}
    if v != DRAW {
        assert(w2.val[y] == v);
        if v % 2 == 0 {
            assert forall|s: Position| #[trigger] pair.kid(y, s) implies won_done(pair, w2, s) && w2.val[pair.node(s)] < v by {
                assert(won_done(pair, w, s));
            }
            if succs(pair.pos(y)).len() > 0 && exists|s: Position| #[trigger]
                pair.kid(y, s) && w.val[pair.node(s)] == v - 1 {
                let s = choose|s: Position| #[trigger] pair.kid(y, s) && w.val[pair.node(s)] == v - 1;
                assert(won_done(pair, w, s));
                assert(w2.val[pair.node(s)] == v - 1);
            }
            assert(loss_ok(pair, w2, y));
        } else {
            if exists|s: Position| #[trigger]
                pair.kid(y, s) && w.done.contains(pair.node(s)) && w.val[pair.node(s)] == v - 1 {
                let s = choose|s: Position| #[trigger]
                    pair.kid(y, s) && w.done.contains(pair.node(s)) && w.val[pair.node(s)] == v - 1;
                assert(w2.done.contains(pair.node(s)) && w2.val[pair.node(s)] == v - 1);
            }
            assert forall|s: Position| #[trigger]
                pair.kid(y, s) && w2.done.contains(pair.node(s)) && w2.val[pair.node(s)] % 2 == 0 implies v - 1
                <= w2.val[pair.node(s)] by {
                assert(w.done.contains(pair.node(s)));
            }
            assert(win_ok(pair, w2, y));
        }
    } else if exhausted(w, w2, preds, y) {
        lemma_awaits(pair, w, d, j, x, preds, y);
        lemma_nothing_open(pair, w2, y);
        assert(w2.val[y] == w2.seen[y] + 1);
        assert(w2.seen[y] != 0);
        assert(w2.seen[y] % 2 == 1) by {
            if exists|s: Position| #[trigger] pair.cap(y, s) && pair.cap_worth(s) == Score::Win(w2.seen[y] as nat) {
                let s = choose|s: Position| #[trigger]
                    pair.cap(y, s) && pair.cap_worth(s) == Score::Win(w2.seen[y] as nat);
                lemma_cap_parity(pair, s);
            } else {
                let s = choose|s: Position| #[trigger]
                    pair.kid(y, s) && won_done(pair, w2, s) && w2.val[pair.node(s)] == w2.seen[y];
                assert(w2.val[pair.node(s)] % 2 == 1);
            }
        }
        let s = choose|s: Position| #[trigger] pair.kid(y, s) && pair.node(s) == x;
        assert(succs(pair.pos(y)).len() > 0);
        assert(loss_ok(pair, w2, y));
        assert(!w.done.contains(y));
    } else {
        assert(w2.val[y] == DRAW);
        assert forall|t: Position| #[trigger]
            pair.kid(y, t) && w2.done.contains(pair.node(t)) && w2.val[pair.node(t)] % 2 == 0 implies w2.val[pair.node(
            t,
        )] == 0xfffe by {
            assert(w.done.contains(pair.node(t)));
        }
        if !pair.has_lost_cap(y) && w2.count[y] == 0 {
            lemma_awaits(pair, w, d, j, x, preds, y);
            assert(occurrences(preds, y) == 0);
        }
        assert(open_ok(pair, w2, y));
    }
}

/// Processing a won node keeps the invariant.
pub proof fn lemma_win_item(pair: Pair, w: Work, d: int, j: int, x: int, preds: Seq<usize>, w2: Work)
    requires
        inv(pair, w, d, j, x),
        0 <= x,
        d % 2 == 1,
        nodes_of(pair, preds, quiet_preds(pair.pos(x))),
        after_win(pair, w, w2, d, x, preds),
    ensures
        inv(pair, w2, d, j, -1),
{
    assert forall|z: int| #[trigger] w.done.contains(z) implies w2.done.contains(z) && w2.val[z] == w.val[z] by {
        assert(pair.live(z));
        assert(node_ok(pair, w, d, z));
    }
    assert forall|y: int| #[trigger] pair.live(y) implies node_ok(pair, w2, d, y) by {
        lemma_win_nodes(pair, w, d, j, x, preds, w2, y);
    }
    assert forall|y: int| #[trigger] occurrences(preds, y) > 0 implies pair.live(y) by {
        lemma_occurs(preds, y);
        let k = choose|k: int| 0 <= k < preds.len() && #[trigger] preds[k] == y;
        assert(in_pair(pair.a, pair.b, quiet_preds(pair.pos(x))[k]));
        lemma_node(pair, quiet_preds(pair.pos(x))[k]);
    }
    assert forall|y: int| #[trigger] exhausted(w, w2, preds, y) implies pair.live(y) && d < w2.val[y] < 0xffff by {
        lemma_win_nodes(pair, w, d, j, x, preds, w2, y);
    }
    assert forall|y: int| 0 <= y < pair.nodes() && !#[trigger] pair.live(y) implies w2.val[y] == DRAW by {
        assert(!exhausted(w, w2, preds, y));
        assert(w2.val[y] == w.val[y]);
    }
    assert forall|e: int, i: int| #[trigger] unread(w2, d, j, e, i) && !fresh(w, w2, e, i) implies unread(w, d, j, e, i) && at(
        w2.queue,
        e,
    )[i] == at(w.queue, e)[i] by {}
    assert forall|e: int, i: int| #[trigger] unread(w2, d, j, e, i) implies entry_ok(
        pair,
        w2,
        -1,
        e,
        at(w2.queue, e)[i].0 as int,
        at(w2.queue, e)[i].1,
    ) by {
        let y = at(w2.queue, e)[i].0 as int;
        if fresh(w, w2, e, i) {
            assert(exhausted(w, w2, preds, y));
            assert(pair.live(y));
            assert(node_ok(pair, w, d, y));
        } else {
            assert(unread(w, d, j, e, i));
            assert(w2.val[y] == w2.val[y]);
            if late(pair, w, y) {
                lemma_still_late(pair, w, w2, y);
            }
        }
    }
    assert forall|e: int, i: int, k: int| #[trigger]
        unread(w2, d, j, e, i) && #[trigger] unread(w2, d, j, e, k) && i < k && at(w2.queue, e)[i].1 && at(w2.queue, e)[k].1 implies at(
        w2.queue,
        e,
    )[i].0 != at(w2.queue, e)[k].0 by {
        if fresh(w, w2, e, i) {
            assert(fresh(w, w2, e, k));
        } else {
            assert(unread(w, d, j, e, i));
            if !fresh(w, w2, e, k) {
                assert(unread(w, d, j, e, k));
            }
        }
    }
    assert forall|y: int| #[trigger] pair.live(y) && w2.val[y] != DRAW && !w2.done.contains(y) implies queued(
        w2,
        d,
        j,
        y,
        w2.val[y] as int,
        true,
    ) by {
        if w.val[y] != DRAW {
            assert(queued(w, d, j, y, w.val[y] as int, true));
            lemma_still_queued(w, w2, d, j, y, w.val[y] as int, true);
        } else {
            assert(exhausted(w, w2, preds, y));
            let e = w2.val[y] as int;
            let i = choose|i: int| #[trigger] fresh(w, w2, e, i) && at(w2.queue, e)[i].0 == y;
            assert(unread(w2, d, j, e, i));
        }
    }
    assert forall|y: int, e: nat| pair.live(y) && w2.val[y] == DRAW && #[trigger] pair.tent(y, e) implies queued(
        w2,
        d,
        j,
        y,
        e as int,
        false,
    ) by {
        assert(w.val[y] == DRAW);
        assert(queued(w, d, j, y, e as int, false));
        lemma_still_queued(w, w2, d, j, y, e as int, false);
    }
    assert forall|y: int, s: Position|
        pair.live(y) && w2.val[y] == DRAW && #[trigger] pair.kid(y, s) && w2.done.contains(pair.node(s)) && w2.val[pair.node(
            s,
        )] == 0xfffe implies queued(w2, d, j, y, 0xffff, false) by {
        assert(w.val[y] == DRAW);
        assert(w2.val[x] == d);
        assert(w.done.contains(pair.node(s)));
        assert(pair.live(pair.node(s)));
        assert(node_ok(pair, w, d, pair.node(s)));
        assert(queued(w, d, j, y, 0xffff, false));
        lemma_still_queued(w, w2, d, j, y, 0xffff, false);
    }
}

/// Passing to the next bucket once every entry of this one is read.
pub proof fn lemma_next_bucket(pair: Pair, w: Work, d: int, j: int, w2: Work)
    requires
        inv(pair, w, d, j, -1),
        at(w.queue, d).len() <= j,
        w2.val == w.val,
        w2.count == w.count,
        w2.seen == w.seen,
        w2.done == w.done,
        forall|e: int| d < e ==> #[trigger] at(w2.queue, e) == at(w.queue, e),
    ensures
        inv(pair, w2, d + 1, 0, -1),
{
    assert forall|e: int, i: int| #[trigger] unread(w2, d + 1, 0, e, i) implies unread(w, d, j, e, i) by {
        assert(at(w2.queue, e) == at(w.queue, e));
    }
    assert forall|x: int, e: int, c: bool| queued(w, d, j, x, e, c) implies #[trigger] queued(w2, d + 1, 0, x, e, c) by {
        let i = choose|i: int| #[trigger] unread(w, d, j, e, i) && at(w.queue, e)[i] == (x as usize, c);
        assert(e > d);
        assert(at(w2.queue, e) == at(w.queue, e));
        assert(unread(w2, d + 1, 0, e, i));
    }
    assert forall|x: int| #[trigger] pair.live(x) implies node_ok(pair, w2, d + 1, x) by {
        assert(node_ok(pair, w, d, x));
        lemma_node_ok_frame(pair, w, w2, d, x);
        if w.val[x] == d && w.val[x] != DRAW && !w.done.contains(x) {
            assert(queued(w, d, j, x, w.val[x] as int, true));
        }
    }
    assert forall|e: int, i: int| #[trigger] unread(w2, d + 1, 0, e, i) implies entry_ok(
        pair,
        w2,
        -1,
        e,
        at(w2.queue, e)[i].0 as int,
        at(w2.queue, e)[i].1,
    ) by {
        assert(unread(w, d, j, e, i));
        assert(at(w2.queue, e) == at(w.queue, e));
        if late(pair, w, at(w.queue, e)[i].0 as int) {
            lemma_still_late(pair, w, w2, at(w.queue, e)[i].0 as int);
        }
    }
    assert forall|e: int, i: int, k: int| #[trigger]
        unread(w2, d + 1, 0, e, i) && #[trigger] unread(w2, d + 1, 0, e, k) && i < k && at(w2.queue, e)[i].1 && at(
            w2.queue,
            e,
        )[k].1 implies at(w2.queue, e)[i].0 != at(w2.queue, e)[k].0 by {
        assert(unread(w, d, j, e, i) && unread(w, d, j, e, k));
        assert(at(w2.queue, e) == at(w.queue, e));
    }
}

/// What the round for depth `d` sees of a successor.
proof fn lemma_seen_reply(pair: Pair, w: Work, d: nat, x: int, s: Position)
    requires
        pair.wf(),
        exact_below(pair, w, d),
        pair.live(x),
        succs(pair.pos(x)).contains(s),
    ensures
        pair.cap(x, s) ==> reply(pair.smaller, decided_below(pair.smaller, d), pair.pos(x), s) == pair.cap_worth(s),
        pair.kid(x, s) ==> reply(pair.smaller, decided_below(pair.smaller, d), pair.pos(x), s) == cut(
            decode(w.val[pair.node(s)]),
            d,
        ),
        pair.cap(x, s) || pair.kid(x, s),
        pair.kid(x, s) ==> pair.live(pair.node(s)),
{
    lemma_moves(pair, x, s);
    if pair.kid(x, s) {
        lemma_decided_node(pair, s, d);
    }
}

/// A node that is decided at depth `d` is decided in round `d`.
proof fn lemma_exact_at(pair: Pair, w: Work, d: nat, x: int)
    requires
        inv(pair, w, d as int + 1, 0, -1),
        exact_below(pair, w, d),
        pair.live(x),
        w.val[x] == d,
        w.val[x] != DRAW,
    ensures
        ({
            let seen = |s: Position| reply(pair.smaller, decided_below(pair.smaller, d), pair.pos(x), s);
            &&& d % 2 == 1 ==> wins_at(pair.pos(x), seen, d)
            &&& d % 2 == 0 ==> loses_at(pair.pos(x), seen, d)
        }),
{
    let p = pair.pos(x);
    let seen = |s: Position| reply(pair.smaller, decided_below(pair.smaller, d), p, s);
    assert(node_ok(pair, w, d as int + 1, x));
    let v = w.val[x];
    if d % 2 == 1 {
        if exists|s: Position| #[trigger] pair.cap(x, s) && pair.cap_worth(s) == Score::Loss((v - 1) as nat) {
            let s = choose|s: Position| #[trigger]
                pair.cap(x, s) && pair.cap_worth(s) == Score::Loss((v - 1) as nat);
            lemma_seen_reply(pair, w, d, x, s);
            assert(seen(s) == Score::Loss((d - 1) as nat));
        } else {
            let s = choose|s: Position| #[trigger]
                pair.kid(x, s) && w.done.contains(pair.node(s)) && w.val[pair.node(s)] == v - 1;
            lemma_seen_reply(pair, w, d, x, s);
            assert(seen(s) == Score::Loss((d - 1) as nat));
        }
        assert forall|s: Position| succs(p).contains(s) && (#[trigger] seen(s)) is Loss implies d - 1 <= seen(s)->Loss_0 by {
            lemma_seen_reply(pair, w, d, x, s);
            if pair.kid(x, s) {
                assert(node_ok(pair, w, d as int + 1, pair.node(s)));
            }
        }
    } else {
        if succs(p).len() > 0 {
            assert forall|s: Position| succs(p).contains(s) implies (#[trigger] seen(s)) is Win && seen(s)->Win_0 <= d - 1 by {
                lemma_seen_reply(pair, w, d, x, s);
                if pair.kid(x, s) {
                    assert(won_done(pair, w, s));
                    assert(node_ok(pair, w, d as int + 1, pair.node(s)));
                }
            }
            if exists|s: Position| #[trigger] pair.cap(x, s) && pair.cap_worth(s) == Score::Win((v - 1) as nat) {
                let s = choose|s: Position| #[trigger]
                    pair.cap(x, s) && pair.cap_worth(s) == Score::Win((v - 1) as nat);
                lemma_seen_reply(pair, w, d, x, s);
                assert(seen(s) == Score::Win((d - 1) as nat));
            } else {
                let s = choose|s: Position| #[trigger] pair.kid(x, s) && w.val[pair.node(s)] == v - 1;
                assert(won_done(pair, w, s));
                assert(node_ok(pair, w, d as int + 1, pair.node(s)));
                lemma_seen_reply(pair, w, d, x, s);
                assert(seen(s) == Score::Win((d - 1) as nat));
            }
        }
    }
}

/// A node that is not decided at depth `d` or below is not won in round `d`.
proof fn lemma_not_won_at(pair: Pair, w: Work, d: nat, x: int)
    requires
        inv(pair, w, d as int + 1, 0, -1),
        exact_below(pair, w, d),
        pair.live(x),
        w.val[x] == DRAW || w.val[x] > d,
    ensures
        !wins_at(pair.pos(x), |s: Position| reply(pair.smaller, decided_below(pair.smaller, d), pair.pos(x), s), d),
{
    let p = pair.pos(x);
    let seen = |s: Position| reply(pair.smaller, decided_below(pair.smaller, d), p, s);
    assert(node_ok(pair, w, d as int + 1, x));
    if wins_at(p, seen, d) {
        let s = choose|s: Position| succs(p).contains(s) && #[trigger] seen(s) == Score::Loss((d - 1) as nat);
        lemma_seen_reply(pair, w, d, x, s);
        if pair.kid(x, s) {
            let y = pair.node(s);
            assert(node_ok(pair, w, d as int + 1, y));
            assert(w.val[y] == d - 1);
            assert(w.done.contains(y));
            if w.val[x] == DRAW {
                assert(w.val[y] == 0xfffe);
                assert(queued(w, d as int + 1, 0, x, 0xffff, false));
            }
        } else if w.val[x] == DRAW {
            lemma_open_lost_cap(pair, w, d as int + 1, 0, -1, x, s);
        }
    }
}

/// A node that is not decided at depth `d` or below is not lost in round `d`.
proof fn lemma_not_lost_at(pair: Pair, w: Work, d: nat, x: int)
    requires
        inv(pair, w, d as int + 1, 0, -1),
        exact_below(pair, w, d),
        pair.live(x),
        w.val[x] == DRAW || w.val[x] > d,
    ensures
        !loses_at(pair.pos(x), |s: Position| reply(pair.smaller, decided_below(pair.smaller, d), pair.pos(x), s), d),
{
    let p = pair.pos(x);
    let seen = |s: Position| reply(pair.smaller, decided_below(pair.smaller, d), p, s);
    let v = w.val[x];
    assert(node_ok(pair, w, d as int + 1, x));
    if loses_at(p, seen, d) {
        assert forall|s: Position| #[trigger] pair.kid(x, s) implies won_done(pair, w, s) && w.val[pair.node(s)] < d && w.val[pair.node(
            s,
        )] != DRAW by {
            lemma_seen_reply(pair, w, d, x, s);
            assert(seen(s) is Win);
            assert(node_ok(pair, w, d as int + 1, pair.node(s)));
        }
        assert forall|s: Position| #[trigger] pair.cap(x, s) implies pair.cap_worth(s) is Win && pair.cap_worth(s)->Win_0 < d by {
            lemma_seen_reply(pair, w, d, x, s);
            assert(seen(s) is Win);
        }
        if v == DRAW {
            assert(!pair.has_lost_cap(x));
            if exists|s: Position| #[trigger] pair.kid(x, s) {
                lemma_all_won_awaits_nothing(pair, w, x);
            } else if succs(p).len() == 0 {
                assert(pair.tent(x, 0));
                assert(queued(w, d as int + 1, 0, x, 0, false));
            } else {
                let s = choose|s: Position| succs(p).contains(s) && #[trigger] seen(s) == Score::Win((d - 1) as nat);
                lemma_seen_reply(pair, w, d, x, s);
                assert(pair.cap(x, s) && pair.cap_worth(s) == Score::Win((d - 1) as nat));
                assert(pair.tent(x, d));
                assert(queued(w, d as int + 1, 0, x, d as int, false));
            }
        }
    }
}

/// A node all of whose moves lead to processed opponent wins awaits nothing.
proof fn lemma_all_won_awaits_nothing(pair: Pair, w: Work, x: int)
    requires
        pair.wf(),
        pair.live(x),
        !pair.has_lost_cap(x),
        tally_ok(pair, w, x),
        forall|s: Position| #[trigger] pair.kid(x, s) ==> won_done(pair, w, s),
        forall|s: Position| #[trigger] pair.cap(x, s) ==> pair.cap_worth(s) is Win,
    ensures
        w.count[x] == 0,
{
    let l = succs(pair.pos(x));
    lemma_node_pos(pair, x);
    lemma_stab_positive(pair.pos(x));
    assert forall|i: int| 0 <= i < l.len() implies pair.kid(x, #[trigger] l[i]) && won_done(pair, w, l[i]) || pair.cap(
        x,
        l[i],
    ) && pair.cap_worth(l[i]) is Win by {
        assert(l.contains(l[i]));
        lemma_moves(pair, x, l[i]);
    }
    lemma_no_weight(pair, w, x, l);
    let (c, k) = (w.count[x] as int, stab(pair.pos(x)) as int);
    assert(0 * k == 0);
    assert(c == 0) by (nonlinear_arith)
        requires
            c * k == 0,
            k > 0,
    ;
}

proof fn lemma_no_weight(pair: Pair, w: Work, x: int, l: Seq<Position>)
    requires
        forall|i: int|
            0 <= i < l.len() ==> pair.kid(x, #[trigger] l[i]) && won_done(pair, w, l[i]) || pair.cap(x, l[i])
                && pair.cap_worth(l[i]) is Win,
    ensures
        open_weight(pair, w, x, l) == 0,
        draw_caps(pair, x, l) == 0,
    decreases l.len(),
{
    if l.len() > 0 {
        let r = l.drop_last();
        assert forall|i: int| 0 <= i < r.len() implies pair.kid(x, #[trigger] r[i]) && won_done(pair, w, r[i]) || pair.cap(
            x,
            r[i],
        ) && pair.cap_worth(r[i]) is Win by {
            assert(r[i] == l[i]);
        }
        lemma_no_weight(pair, w, x, r);
        assert(l.last() == l[l.len() - 1]);
    }
}

/// Once bucket `d` is processed, the values up to `d` are exact.
pub proof fn lemma_exact_step(pair: Pair, w: Work, d: nat)
    requires
        inv(pair, w, d as int + 1, 0, -1),
        exact_below(pair, w, d),
    ensures
        exact_below(pair, w, d + 1),
{
    assert forall|x: int| #[trigger] pair.live(x) implies decided_below(pair.smaller, d + 1)(pair.pos(x)) == cut(
        decode(w.val[x]),
        d + 1,
    ) by {
        let v = w.val[x];
        let seen = |s: Position| reply(pair.smaller, decided_below(pair.smaller, d), pair.pos(x), s);
        assert(decided_below(pair.smaller, d)(pair.pos(x)) == cut(decode(v), d));
        if v == DRAW || v > d {
            lemma_not_won_at(pair, w, d, x);
            lemma_not_lost_at(pair, w, d, x);
        } else if v == d {
            lemma_exact_at(pair, w, d, x);
            if d % 2 == 0 {
                assert(!wins_at(pair.pos(x), seen, d)) by {
                    if wins_at(pair.pos(x), seen, d) {
                        crate::game::minimax_is_functional(pair.pos(x), seen, Score::Win(d), Score::Loss(d));
                    }
                }
            }
        }
    }
}

/// With an empty queue nothing changes any more.
proof fn lemma_exact_from(pair: Pair, w: Work, d: nat, n: nat)
    requires
        inv(pair, w, d as int, 0, -1),
        exact_below(pair, w, d),
        forall|e: int| d <= e ==> #[trigger] at(w.queue, e).len() == 0,
        d <= n,
    ensures
        inv(pair, w, n as int, 0, -1),
        exact_below(pair, w, n),
    decreases n,
{
    if d < n {
        let m = (n - 1) as nat;
        lemma_exact_from(pair, w, d, m);
        lemma_next_bucket(pair, w, m as int, 0, w);
        lemma_exact_step(pair, w, m);
    }
}

/// With an empty queue the values are the true worths.
pub proof fn lemma_solved(pair: Pair, w: Work, d: nat, x: int)
    requires
        inv(pair, w, d as int, 0, -1),
        exact_below(pair, w, d),
        forall|e: int| d <= e ==> #[trigger] at(w.queue, e).len() == 0,
        pair.live(x),
    ensures
        decode(w.val[x]) == score(pair.smaller, pair.pos(x)),
{
    let n = d + depth(score(pair.smaller, pair.pos(x))) + depth(decode(w.val[x])) + 1;
    lemma_exact_from(pair, w, d, n);
    lemma_score(pair.smaller, pair.pos(x), n);
}

/// An open node in the last bucket is won, but too late for a code.
pub proof fn lemma_too_deep(pair: Pair, w: Work, j: int, x: int)
    requires
        inv(pair, w, 0xffff, j, -1),
        exact_below(pair, w, 0xffff),
        0 <= j < at(w.queue, 0xffff).len(),
        at(w.queue, 0xffff)[j].0 == x,
        w.val[x] == DRAW,
    ensures
        pair.live(x),
        score(pair.smaller, pair.pos(x)) == Score::Win(0xffff),
{
    let d: nat = 0xffff;
    assert(unread(w, 0xffff, j, 0xffff, j));
    assert(entry_ok(pair, w, -1, 0xffff, x, at(w.queue, 0xffff)[j].1));
    let p = pair.pos(x);
    let seen = |s: Position| reply(pair.smaller, decided_below(pair.smaller, d), p, s);
    assert(node_ok(pair, w, 0xffff, x));
    if late(pair, w, x) {
        let s = choose|s: Position| #[trigger]
            pair.kid(x, s) && w.done.contains(pair.node(s)) && w.val[pair.node(s)] == 0xfffe;
        lemma_seen_reply(pair, w, d, x, s);
        assert(seen(s) == Score::Loss(0xfffe));
    } else {
        lemma_tent_parity(pair, x, d);
        let s = choose|s: Position| #[trigger] pair.cap(x, s) && pair.cap_worth(s) == Score::Loss((d - 1) as nat);
        lemma_seen_reply(pair, w, d, x, s);
        assert(seen(s) == Score::Loss(0xfffe));
    }
    assert forall|s: Position| succs(p).contains(s) && (#[trigger] seen(s)) is Loss implies d - 1 <= seen(s)->Loss_0 by {
        lemma_seen_reply(pair, w, d, x, s);
        if pair.kid(x, s) {
            assert(node_ok(pair, w, 0xffff, pair.node(s)));
        } else {
            lemma_open_lost_cap(pair, w, 0xffff, j, -1, x, s);
        }
    }
    assert(wins_at(p, seen, d));
    assert(decided_below(pair.smaller, d)(p) == cut(decode(w.val[x]), d));
    assert(decided_below(pair.smaller, d + 1)(p) == Score::Win(d));
    lemma_score(pair.smaller, p, d + 1);
}

/// The stabilizer sizes of the quiet successors in `l`, summed.
pub open spec fn quiet_weight(pair: Pair, x: int, l: Seq<Position>) -> nat
    decreases l.len(),
{
    if l.len() == 0 {
        0
    } else {
        quiet_weight(pair, x, l.drop_last()) + if total(l.last()) == total(pair.pos(x)) {
            stab(l.last())
        } else {
            0
        }
    }
}

/// The scratch values that node `x` starts with.
pub open spec fn seed_ok(pair: Pair, x: int, count: u32, seen: u16) -> bool {
    let l = succs(pair.pos(x));
    if pair.has_lost_cap(x) {
        count == UNBOUNDED
    } else {
        &&& count < UNBOUNDED
        &&& count * stab(pair.pos(x)) == quiet_weight(pair, x, l) + draw_caps(pair, x, l) * stab(pair.pos(x))
        &&& forall|s: Position| #[trigger] pair.cap(x, s) && pair.cap_worth(s) is Win ==> pair.cap_worth(s)->Win_0 <= seen
        &&& seen != 0 ==> exists|s: Position| #[trigger] pair.cap(x, s) && pair.cap_worth(s) == Score::Win(seen as nat)
    }
}

proof fn lemma_open_weight_start(pair: Pair, w: Work, x: int, l: Seq<Position>)
    requires
        w.done == Set::<int>::empty(),
    ensures
        open_weight(pair, w, x, l) == quiet_weight(pair, x, l),
    decreases l.len(),
{
    if l.len() > 0 {
        lemma_open_weight_start(pair, w, x, l.drop_last());
    }
}

/// A node that awaits nothing from the start has no quiet moves.
proof fn lemma_seed_quiet(pair: Pair, w: Work, x: int)
    requires
        pair.wf(),
        pair.live(x),
        !pair.has_lost_cap(x),
        tally_ok(pair, w, x),
        w.done == Set::<int>::empty(),
        w.count[x] == 0,
    ensures
        forall|s: Position| !#[trigger] pair.kid(x, s),
{
    lemma_nothing_open(pair, w, x);
    assert forall|s: Position| !#[trigger] pair.kid(x, s) by {
        if pair.kid(x, s) {
            assert(won_done(pair, w, s));
        }
    }
}

/// The invariant holds when every node has its scratch values, and the queue
/// holds the nodes that captures alone would decide.
pub proof fn lemma_start(pair: Pair, w: Work)
    requires
        pair.wf(),
        pair.nodes() <= usize::MAX,
        w.val.len() == pair.nodes(),
        w.count.len() == pair.nodes(),
        w.seen.len() == pair.nodes(),
        w.done == Set::<int>::empty(),
        forall|x: int| 0 <= x < pair.nodes() ==> #[trigger] w.val[x] == DRAW,
        forall|x: int| #[trigger] pair.live(x) ==> seed_ok(pair, x, w.count[x], w.seen[x]),
        forall|e: int, i: int| 0 <= i < at(w.queue, e).len() ==> {
            let (x, committed) = #[trigger] at(w.queue, e)[i];
            !committed && e <= 0xffff && pair.live(x as int) && pair.tent(x as int, e as nat)
        },
        forall|x: int, e: nat|
            pair.live(x) && #[trigger] pair.tent(x, e) ==> exists|i: int|
                0 <= i < at(w.queue, e as int).len() && #[trigger] at(w.queue, e as int)[i] == (x as usize, false),
    ensures
        inv(pair, w, 0, 0, -1),
        exact_below(pair, w, 0),
{
    assert forall|x: int| #[trigger] pair.live(x) implies node_ok(pair, w, 0, x) by {
        assert(seed_ok(pair, x, w.count[x], w.seen[x]));
        lemma_open_weight_start(pair, w, x, succs(pair.pos(x)));
        assert(tally_ok(pair, w, x));
        if !pair.has_lost_cap(x) && w.count[x] == 0 {
            lemma_seed_quiet(pair, w, x);
        }
    }
    assert forall|e: int, i: int| #[trigger] unread(w, 0, 0, e, i) implies entry_ok(
        pair,
        w,
        -1,
        e,
        at(w.queue, e)[i].0 as int,
        at(w.queue, e)[i].1,
    ) by {
        let (x, committed) = at(w.queue, e)[i];
    }
    assert forall|x: int, e: nat| pair.live(x) && w.val[x] == DRAW && #[trigger] pair.tent(x, e) implies queued(
        w,
        0,
        0,
        x,
        e as int,
        false,
    ) by {
        let i = choose|i: int|
            0 <= i < at(w.queue, e as int).len() && #[trigger] at(w.queue, e as int)[i] == (x as usize, false);
        assert(unread(w, 0, 0, e as int, i));
    }
    assert forall|e: int, i: int, k: int| #[trigger]
        unread(w, 0, 0, e, i) && #[trigger] unread(w, 0, 0, e, k) && i < k && at(w.queue, e)[i].1 && at(w.queue, e)[k].1 implies at(
        w.queue,
        e,
    )[i].0 != at(w.queue, e)[k].0 by {
        let (x, committed) = at(w.queue, e)[i];
    }
}

/// The work with every live node below `n` processed as a win.
spec fn all_won_below(pair: Pair, n: int) -> Work {
    Work {
        val: Seq::new(pair.nodes(), |y: int| 1u16),
        count: Seq::empty(),
        seen: Seq::empty(),
        queue: Seq::empty(),
        done: Set::new(|y: int| pair.live(y) && y < n),
    }
}

proof fn lemma_divisible_from(pair: Pair, x: int, n: int)
    requires
        pair.wf(),
        pair.nodes() <= usize::MAX,
        pair.live(x),
        0 <= n <= pair.nodes(),
    ensures
        open_weight(pair, all_won_below(pair, n), x, succs(pair.pos(x))) % stab(pair.pos(x)) == 0,
    decreases pair.nodes() - n,
{
    let l = succs(pair.pos(x));
    let k = stab(pair.pos(x));
    let w = all_won_below(pair, n);
    lemma_node_pos(pair, x);
    lemma_stab_positive(pair.pos(x));
    if n == pair.nodes() {
        assert forall|i: int| 0 <= i < l.len() && total(#[trigger] l[i]) == total(pair.pos(x)) implies won_done(pair, w, l[i]) by {
            assert(l.contains(l[i]));
            lemma_moves(pair, x, l[i]);
        }
        lemma_closed_weight(pair, w, x, l);
        vstd::arithmetic::div_mod::lemma_small_mod(0, k);
    } else {
        let w2 = all_won_below(pair, n + 1);
        lemma_divisible_from(pair, x, n + 1);
        if pair.live(n) {
            let qp = quiet_preds(pair.pos(n));
            let preds = Seq::new(qp.len(), |i: int| pair.node(qp[i]) as usize);
            lemma_quiet_preds_in_pair(pair, n);
            assert forall|i: int| 0 <= i < preds.len() implies #[trigger] preds[i] == pair.node(qp[i]) by {
                assert(in_pair(pair.a, pair.b, qp[i]));
                lemma_node(pair, qp[i]);
            }
            lemma_predecessors(pair, x, n, preds);
            assert(w2.done =~= w.done.insert(n));
            assert forall|i: int| 0 <= i < l.len() implies l.contains(#[trigger] l[i]) by {}
            lemma_open_weight_less(pair, w, w2, x, n, l);
            let (o, c) = (open_weight(pair, w2, x, l) as int, occurrences(preds, x) as int);
            vstd::arithmetic::div_mod::lemma_mod_multiples_vanish(c, o, k as int);
            assert(c * k == k * c) by (nonlinear_arith);
        } else {
            assert(w2.done =~= w.done);
            assert(w2 =~= w);
        }
    }
}

proof fn lemma_closed_weight(pair: Pair, w: Work, x: int, l: Seq<Position>)
    requires
        forall|i: int| 0 <= i < l.len() && total(#[trigger] l[i]) == total(pair.pos(x)) ==> won_done(pair, w, l[i]),
    ensures
        open_weight(pair, w, x, l) == 0,
    decreases l.len(),
{
    if l.len() > 0 {
        let r = l.drop_last();
        assert forall|i: int| 0 <= i < r.len() && total(#[trigger] r[i]) == total(pair.pos(x)) implies won_done(pair, w, r[i]) by {
            assert(r[i] == l[i]);
        }
        lemma_closed_weight(pair, w, x, r);
        assert(l.last() == l[l.len() - 1]);
    }
}

/// The stabilizer sizes of the quiet successors of a node sum to a multiple
/// of its own.
pub proof fn lemma_divisible(pair: Pair, x: int)
    requires
        pair.wf(),
        pair.nodes() <= usize::MAX,
        pair.live(x),
    ensures
        quiet_weight(pair, x, succs(pair.pos(x))) % stab(pair.pos(x)) == 0,
{
    let w = all_won_below(pair, 0);
    assert(w.done =~= Set::<int>::empty());
    lemma_open_weight_start(pair, w, x, succs(pair.pos(x)));
    lemma_divisible_from(pair, x, 0);
}

/// Captures alone decide a node at one depth only.
pub proof fn lemma_tent_unique(pair: Pair, x: int, d: nat, e: nat)
    requires
        pair.tent(x, d),
        pair.tent(x, e),
    ensures
        d == e,
{
    if pair.has_lost_cap(x) {
        let s = choose|s: Position| #[trigger] pair.cap(x, s) && pair.cap_worth(s) == Score::Loss((d - 1) as nat);
        let t = choose|s: Position| #[trigger] pair.cap(x, s) && pair.cap_worth(s) == Score::Loss((e - 1) as nat);
        assert(pair.cap(x, s) && pair.cap(x, t));
    } else if succs(pair.pos(x)).len() > 0 {
        let s = choose|s: Position| #[trigger] pair.cap(x, s) && pair.cap_worth(s) == Score::Win((d - 1) as nat);
        let t = choose|s: Position| #[trigger] pair.cap(x, s) && pair.cap_worth(s) == Score::Win((e - 1) as nat);
        assert(pair.cap(x, s) && pair.cap(x, t));
    }
}

} // verus!
