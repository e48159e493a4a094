//! Retrograde analysis engine.
//!
//! Solves one unordered material pair `{a, b}` at a time: both ordered
//! subspaces `(a, b)` and `(b, a)` together, since a quiet move leads from one
//! to the other. All pairs with fewer stones must be registered in the
//! `Database` already, because captures lead there. When `a == b` the two
//! subspaces are one, with one array.
//!
//! A decided code is the depth in plies, and its parity tells a loss (even)
//! from a win (odd); `DRAW` marks a slot that is undecided, or drawn for good.
//!
//! Nodes are decided in order of depth, from a queue of buckets. A plain
//! queue would not do: captures into solved pairs decide nodes at any depth
//! from the start. Until a node is decided, `count` holds the number of
//! updates it awaits from quiet successors that become opponent wins, and one
//! for each capture that draws; `seen` holds the depth of the slowest opponent
//! win so far. When `count` falls to 0 the node is lost in `seen + 1` plies.
//!
//! A capture that wins is known at once, but a quiet move may win sooner. So
//! it is queued as a tentative entry, and committed only if the node is still
//! undecided when its bucket is reached.

use vstd::prelude::*;

pub use crate::database::{is_loss, is_win, Database, DRAW};
use crate::database::{decode, lookups_are_symmetry_invariant};
use crate::game::{depth, in_pair, lemma_score, score, total, Score};
use crate::index::{
    canonical_slot, index, slot_of, slot_pos, slots, slots_hold_canonical_forms, stones, subspace_of,
    subspace_size, unindex, IndexTables, SubspaceId,
};
use crate::mask::count;
use crate::movegen::{moves_movement, quiet_predecessors, quiet_preds, succs};
use crate::pair::{
    lemma_decided_node, lemma_moves, lemma_node, lemma_node_pos, lemma_occurs, lemma_quiet_preds_in_pair,
    lemma_stab_positive, lemma_succs_len, nodes_of, occurrences, Pair,
};
use crate::par::par_map;
use crate::pos::Position;
use crate::propagate::{
    after_loss, after_win, at, draw_caps, exact_below, exhausted, fresh, grew, inv, lemma_awaits,
    lemma_commit, lemma_divisible, lemma_exact_step, lemma_loss_item, lemma_next_bucket,
    lemma_read_committed, lemma_read_stale, lemma_solved, lemma_start, lemma_tent_unique, lemma_too_deep,
    lemma_win_item, quiet_weight, seed_ok, Work, UNBOUNDED,
};
use crate::symmetry::{canon, is_canonical, stab, stabilizer_size};

verus! {

/// The material pair `{a, b}` over the values registered in `db`.
pub open spec fn pair_of(a: nat, b: nat, db: &Database) -> Pair {
    Pair { a, b, smaller: |s: Position| db.worth(s) }
}

/// Every capture from the pair `{a, b}` leads to a registered subspace, or
/// leaves fewer than three stones.
pub open spec fn dependencies_met(a: nat, b: nat, db: &Database) -> bool {
    &&& b > 3 ==> db.covers((b - 1) as nat, a)
    &&& a > 3 ==> db.covers((a - 1) as nat, b)
}

proof fn lemma_pair_wf(a: nat, b: nat, db: &Database)
    requires
        stones(a as int),
        stones(b as int),
    ensures
        pair_of(a, b, db).wf(),
{
    let pair = pair_of(a, b, db);
    assert forall|g: int, s: Position| 0 <= g < 16 && s.wf() implies (pair.smaller)(
        #[trigger] crate::symmetry::image_pos(g, s),
    ) == (pair.smaller)(s) by {
        lookups_are_symmetry_invariant(db, g, s);
    }
}

/// The nodes of a pair.
struct Nodes<'a> {
    tables: &'a IndexTables,
    a: usize,
    b: usize,
    size_ab: usize,
    len: usize,
}

impl<'a> Nodes<'a> {
    spec fn wf(self, pair: Pair) -> bool {
        &&& pair.wf()
        &&& self.a == pair.a
        &&& self.b == pair.b
        &&& self.size_ab == slots(pair.ab())
        &&& self.len == pair.nodes()
    }

    fn new(db: &'a Database, a: usize, b: usize) -> (nodes: Self)
        requires
            stones(a as int),
            stones(b as int),
            pair_of(a as nat, b as nat, db).nodes() <= usize::MAX,
        ensures
            nodes.wf(pair_of(a as nat, b as nat, db)),
    {
        proof {
            lemma_pair_wf(a as nat, b as nat, db);
        }
        let size_ab: u64 = subspace_size(db.tables(), SubspaceId::new(a, b));
        let size_ba: u64 = if a == b {
            0
        } else {
            subspace_size(db.tables(), SubspaceId::new(b, a))
        };
        Nodes { tables: db.tables(), a, b, size_ab: size_ab as usize, len: (size_ab + size_ba) as usize }
    }

    /// The position that node `x` holds.
    fn pos(&self, x: usize, Ghost(pair): Ghost<Pair>) -> (p: Position)
        requires
            self.wf(pair),
            x < self.len,
        ensures
            p == pair.pos(x as int),
            in_pair(pair.a, pair.b, p),
    {
        proof {
            lemma_node_pos(pair, x as int);
        }
        if x < self.size_ab {
            unindex(self.tables, SubspaceId::new(self.a, self.b), x as u64)
        } else {
            unindex(self.tables, SubspaceId::new(self.b, self.a), (x - self.size_ab) as u64)
        }
    }

    /// The node of a position of the pair.
    fn node(&self, p: Position, Ghost(pair): Ghost<Pair>) -> (x: usize)
        requires
            self.wf(pair),
            in_pair(pair.a, pair.b, p),
        ensures
            x == pair.node(p),
            pair.live(x as int),
            x < self.len,
    {
        proof {
            lemma_node(pair, p);
        }
        let (sub, idx) = index(self.tables, p);
        if sub.w as usize == self.a {
            idx as usize
        } else {
            self.size_ab + idx as usize
        }
    }

    /// The nodes with a quiet move to node `y`, once for each move.
    fn predecessors(&self, y: usize, Ghost(pair): Ghost<Pair>) -> (preds: Vec<usize>)
        requires
            self.wf(pair),
            y < self.len,
        ensures
            nodes_of(pair, preds@, quiet_preds(pair.pos(y as int))),
            forall|k: int| 0 <= k < preds.len() ==> pair.live(#[trigger] preds[k] as int),
    {
        let q: Position = self.pos(y, Ghost(pair));
        let ps: Vec<Position> = quiet_predecessors(q);
        proof {
            lemma_quiet_preds_in_pair(pair, y as int);
        }
        let mut preds: Vec<usize> = Vec::new();
        let mut k: usize = 0;
        while k < ps.len()
            invariant
                k <= ps.len(),
                self.wf(pair),
                ps@ == quiet_preds(pair.pos(y as int)),
                preds.len() == k,
                forall|i: int| 0 <= i < ps.len() ==> in_pair(pair.a, pair.b, #[trigger] ps@[i]),
                forall|i: int| 0 <= i < k ==> #[trigger] preds@[i] == pair.node(ps@[i]),
                forall|i: int| 0 <= i < k ==> pair.live(#[trigger] preds[i] as int),
            decreases ps.len() - k,
        {
            let x: usize = self.node(ps[k], Ghost(pair));
            preds.push(x);
            k = k + 1;
        }
        preds
    }
}

/// What a node starts with: the depth at which captures alone would decide
/// it, if they would, and its scratch values.
struct Seed {
    tentative: Option<u16>,
    count: u32,
    seen: u16,
}

impl Seed {
    spec fn ok(self, pair: Pair, x: int) -> bool {
        if pair.live(x) {
            &&& seed_ok(pair, x, self.count, self.seen)
            &&& match self.tentative {
                Some(d) => pair.tent(x, d as nat),
                None => forall|e: nat| !#[trigger] pair.tent(x, e),
            }
        } else {
            self.tentative is None
        }
    }
}

/// Initialize one node: a loss without a move, a tentative win through a
/// capture that wins, a tentative loss where every move is a capture that
/// loses, and else the number of updates to await.
///
/// `count` must equal the number of updates that the node will receive, which
/// is not the number of its quiet moves: several moves can lead to one class
/// of symmetric positions, which is processed once, and a class can lead back
/// to the node several times. Between node `P` and class `C` the updates are
/// `f * stab(C) / stab(P)`, where `f` is the number of moves into the class;
/// over all classes that is the sum of the stabilizer sizes of the quiet
/// successors, divided by `stab(P)`.
fn init_slot(db: &Database, nodes: &Nodes, x: usize, Ghost(pair): Ghost<Pair>) -> (seed: Seed)
    requires
        nodes.wf(pair),
        pair == pair_of(pair.a, pair.b, db),
        dependencies_met(pair.a, pair.b, db),
        x < nodes.len,
    ensures
        seed.ok(pair, x as int),
{
    let ghost gx = x as int;
    let pos: Position = nodes.pos(x, Ghost(pair));
    if !is_canonical(pos) {
        return Seed { tentative: None, count: 0, seen: 0 };
    }
    let successors: Vec<Position> = moves_movement(pos.white(), pos.black());
    let ghost l = succs(pair.pos(gx));
    if successors.len() == 0 {
        proof {
            assert forall|s: Position| !#[trigger] pair.cap(gx, s) && !pair.kid(gx, s) by {}
            assert(!pair.has_lost_cap(gx));
            assert(0 * stab(pos) == 0);
        }
        return Seed { tentative: Some(0), count: 0, seen: 0 };
    }
    proof {
        lemma_succs_len(pos);
        lemma_stab_positive(pos);
        assert(l.take(0) =~= Seq::<Position>::empty());
    }
    let stones_here: u32 = pos.white_count() + pos.black_count();
    let mut best: Option<u16> = None;
    let mut draws: u32 = 0;
    let mut slowest: u16 = 0;
    let mut weight: u32 = 0;
    let mut quiet: bool = false;
    let mut i: usize = 0;
    while i < successors.len()
        invariant
            i <= successors.len(),
            successors@ == l,
            l == succs(pair.pos(gx)),
            l.len() <= 13824,
            pos == pair.pos(gx),
            pair.live(gx),
            nodes.wf(pair),
            pair == pair_of(pair.a, pair.b, db),
            dependencies_met(pair.a, pair.b, db),
            gx == x,
            in_pair(pair.a, pair.b, pos),
            stones_here == total(pos),
            draws == draw_caps(pair, gx, l.take(i as int)),
            draws <= i,
            draws > 0 ==> exists|k: int| 0 <= k < i && pair.cap(gx, #[trigger] l[k]) && pair.cap_worth(l[k]) is Draw,
            weight == quiet_weight(pair, gx, l.take(i as int)),
            weight <= 16 * i,
            quiet == exists|k: int| 0 <= k < i && pair.kid(gx, #[trigger] l[k]),
            forall|k: int|
                0 <= k < i && pair.cap(gx, #[trigger] l[k]) && pair.cap_worth(l[k]) is Win ==> pair.cap_worth(l[k])->Win_0
                    <= slowest,
            slowest != 0 ==> exists|k: int|
                0 <= k < i && pair.cap(gx, #[trigger] l[k]) && pair.cap_worth(l[k]) == Score::Win(slowest as nat),
            slowest < 0xffff,
            match best {
                Some(d) => {
                    &&& d > 0
                    &&& exists|k: int|
                        0 <= k < i && pair.cap(gx, #[trigger] l[k]) && pair.cap_worth(l[k]) == Score::Loss((d - 1) as nat)
                    &&& forall|k: int|
                        0 <= k < i && pair.cap(gx, #[trigger] l[k]) && pair.cap_worth(l[k]) is Loss ==> d - 1
                            <= pair.cap_worth(l[k])->Loss_0
                },
                None => forall|k: int| 0 <= k < i && pair.cap(gx, #[trigger] l[k]) ==> !(pair.cap_worth(l[k]) is Loss),
            },
        decreases successors.len() - i,
    {
        let s: Position = successors[i];
        proof {
            assert(l.contains(l[i as int]));
            lemma_moves(pair, gx, s);
            assert(l.take(i + 1).drop_last() =~= l.take(i as int));
            assert(l.take(i + 1).last() == s);
            lemma_stab_positive(s);
        }
        if s.white_count() < 3 {
            proof {
                assert(pair.cap(gx, s) && pair.cap_worth(s) == Score::Loss(0));
                assert(pair.has_lost_cap(gx));
                assert(pair.tent(gx, 1));
            }
            return Seed { tentative: Some(1), count: UNBOUNDED, seen: 0 };
        }
        if s.white_count() + s.black_count() < stones_here {
            let code: u16 = db.lookup_pos(s);
            assert(pair.cap(gx, s) && pair.cap_worth(s) == decode(code));
            if code == DRAW {
                draws = draws + 1;
            } else if is_loss(code) {
                let d: u16 = code + 1;
                best = match best {
                    None => Some(d),
                    Some(e) => Some(if d < e { d } else { e }),
                };
            } else if code > slowest {
                slowest = code;
            }
        } else {
            assert(pair.kid(gx, l[i as int]));
            weight = weight + stabilizer_size(s);
            quiet = true;
        }
        i = i + 1;
    }
    proof {
        assert(l.take(i as int) =~= l);
        assert forall|s: Position| pair.cap(gx, s) || pair.kid(gx, s) implies exists|k: int|
            0 <= k < l.len() && #[trigger] l[k] == s by {}
        assert(l.contains(l[0]));
        lemma_moves(pair, gx, l[0]);
    }
    match best {
        Some(d) => {
            proof {
                assert(pair.has_lost_cap(gx));
                assert(pair.tent(gx, d as nat));
            }
            Seed { tentative: Some(d), count: UNBOUNDED, seen: 0 }
        },
        None => {
            assert(!pair.has_lost_cap(gx));
            let own: u32 = stabilizer_size(pos);
            let awaited: u32 = weight / own + draws;
            proof {
                lemma_divisible(pair, gx);
                vstd::arithmetic::div_mod::lemma_fundamental_div_mod(weight as int, own as int);
                let (q, n, k) = ((weight / own) as int, draws as int, own as int);
                assert((q + n) * k == k * q + n * k) by (nonlinear_arith);
                assert(seed_ok(pair, gx, awaited, slowest));
            }
            if draws == 0 && !quiet {
                proof {
                    crate::propagate::lemma_draw_caps_zero(pair, gx, l);
                    assert forall|s: Position| !#[trigger] pair.kid(gx, s) by {}
                    assert(pair.cap(gx, l[0]));
                    assert(slowest != 0) by {
                        crate::propagate::lemma_cap_parity(pair, l[0]);
                    }
                    assert(pair.tent(gx, (slowest + 1) as nat));
                }
                Seed { tentative: Some(slowest + 1), count: awaited, seen: slowest }
            } else {
                proof {
                    assert forall|e: nat| !#[trigger] pair.tent(gx, e) by {
                        if quiet {
                            let k = choose|k: int| 0 <= k < l.len() && pair.kid(gx, #[trigger] l[k]);
                            assert(pair.kid(gx, l[k]));
                        } else {
                            let k = choose|k: int|
                                0 <= k < l.len() && pair.cap(gx, #[trigger] l[k]) && pair.cap_worth(l[k]) is Draw;
                            assert(pair.cap(gx, l[k]));
                        }
                    }
                }
                Seed { tentative: None, count: awaited, seen: slowest }
            }
        },
    }
}

/// The buckets as a queue.
spec fn queue_view(buckets: Seq<Vec<(usize, bool)>>) -> Seq<Seq<(usize, bool)>> {
    Seq::new(buckets.len(), |e: int| buckets[e]@)
}

/// `after` is `before` with `entry` at the end of bucket `d`.
spec fn pushed(before: Seq<Seq<(usize, bool)>>, after: Seq<Seq<(usize, bool)>>, d: int, entry: (usize, bool)) -> bool {
    forall|e: int| #[trigger] at(after, e) == (if e == d {
        at(before, e).push(entry)
    } else {
        at(before, e)
    })
}

/// Appends an entry to the bucket for `depth`. A committed entry is a node
/// whose value is set, a tentative one a node that may yet be decided at this
/// depth.
fn push_bucket(buckets: &mut Vec<Vec<(usize, bool)>>, depth: u16, x: usize, committed: bool)
    requires
        old(buckets).len() <= 0x1_0000,
    ensures
        final(buckets).len() <= 0x1_0000,
        pushed(queue_view(old(buckets)@), queue_view(final(buckets)@), depth as int, (x, committed)),
{
    let d: usize = depth as usize;
    let ghost q = queue_view(buckets@);
    while buckets.len() <= d
        invariant
            forall|e: int| #[trigger] at(queue_view(buckets@), e) == at(q, e),
            d <= 0xffff,
            buckets.len() <= 0x1_0000,
        decreases d + 1 - buckets.len(),
    {
        let ghost before = buckets@;
        buckets.push(Vec::new());
        proof {
            assert forall|e: int| #[trigger] at(queue_view(buckets@), e) == at(q, e) by {
                assert(at(queue_view(before), e) == at(q, e));
                if 0 <= e < before.len() {
                    assert(buckets@[e] == before[e]);
                }
            }
        }
    }
    let ghost before = buckets@;
    buckets[d].push((x, committed));
    proof {
        assert forall|e: int| #[trigger] at(queue_view(buckets@), e) == (if e == d {
            at(q, e).push((x, committed))
        } else {
            at(q, e)
        }) by {
            assert(at(queue_view(before), e) == at(q, e));
            if 0 <= e < before.len() && e != d {
                assert(buckets@[e] == before[e]);
            }
        }
    }
}

/// The state of one solve.
struct Solver {
    val: Vec<u16>,
    count: Vec<u32>,
    seen: Vec<u16>,
    buckets: Vec<Vec<(usize, bool)>>,
    done: Ghost<Set<int>>,
}

impl Solver {
    spec fn work(self) -> Work {
        Work {
            val: self.val@,
            count: self.count@,
            seen: self.seen@,
            queue: queue_view(self.buckets@),
            done: self.done@,
        }
    }

    spec fn sized(self, n: int) -> bool {
        &&& self.val.len() == n
        &&& self.count.len() == n
        &&& self.seen.len() == n
        &&& self.buckets.len() <= 0x1_0000
    }

    /// Apply the consequences of a node decided at depth `d` to node `y`,
    /// which has a quiet move to it. A lost successor wins for `y`, unless it
    /// is decided already. A won one is counted off, and where it was the last
    /// that `y` awaited, `y` is lost.
    fn apply_to_predecessor(&mut self, y: usize, d: u16, loss: bool)
        requires
            old(self).sized(old(self).val.len() as int),
            y < old(self).val.len(),
            d < 0xffff,
            !loss && old(self).count[y as int] != UNBOUNDED ==> old(self).count[y as int] > 0 && old(self).seen[y as int] < 0xfffe
                && d < 0xfffe,
        ensures
            final(self).done == old(self).done,
            final(self).buckets.len() <= 0x1_0000,
            loss ==> {
                &&& final(self).count == old(self).count
                &&& final(self).seen == old(self).seen
                &&& if old(self).val[y as int] == DRAW {
                    &&& final(self).val@ == old(self).val@.update(y as int, (d + 1) as u16)
                    &&& pushed(old(self).work().queue, final(self).work().queue, d + 1, (y, d + 1 < 0xffff))
                } else {
                    &&& final(self).val == old(self).val
                    &&& final(self).buckets == old(self).buckets
                }
            },
            !loss ==> {
                let m = if old(self).seen[y as int] < d {
                    d
                } else {
                    old(self).seen[y as int]
                };
                &&& final(self).seen@ == old(self).seen@.update(y as int, m)
                &&& if old(self).count[y as int] == UNBOUNDED {
                    final(self).count == old(self).count
                } else {
                    final(self).count@ == old(self).count@.update(y as int, (old(self).count[y as int] - 1) as u32)
                }
                &&& if old(self).count[y as int] == 1 && old(self).val[y as int] == DRAW {
                    &&& final(self).val@ == old(self).val@.update(y as int, (m + 1) as u16)
                    &&& pushed(old(self).work().queue, final(self).work().queue, m + 1, (y, true))
                } else {
                    &&& final(self).val == old(self).val
                    &&& final(self).buckets == old(self).buckets
                }
            },
    {
        if loss {
            if self.val[y] == DRAW {
                self.val[y] = d + 1;
                push_bucket(&mut self.buckets, d + 1, y, d + 1 < DRAW);
            }
        } else {
            if self.seen[y] < d {
                self.seen[y] = d;
            }
            assert(self.seen@ =~= old(self).seen@.update(y as int, self.seen[y as int]));
            if self.count[y] != UNBOUNDED {
                self.count[y] = self.count[y] - 1;
                if self.count[y] == 0 && self.val[y] == DRAW {
                    let lost_in: u16 = self.seen[y] + 1;
                    self.val[y] = lost_in;
                    push_bucket(&mut self.buckets, lost_in, y, true);
                }
            }
        }
    }

    /// Apply the loss of node `x` at depth `d` to its predecessors.
    fn apply_loss(&mut self, preds: &Vec<usize>, d: u16, Ghost(x): Ghost<int>, Ghost(pair): Ghost<Pair>)
        requires
            old(self).sized(old(self).val.len() as int),
            d < 0xffff,
            forall|k: int| 0 <= k < preds.len() ==> #[trigger] preds[k] < old(self).val.len(),
        ensures
            after_loss(pair, old(self).work(), final(self).work(), d as int, x, preds@),
            final(self).sized(old(self).val.len() as int),
    {
        let ghost w0 = self.work();
        let ghost n = self.val.len() as int;
        assert(preds@.take(0) =~= Seq::<usize>::empty());
        let mut k: usize = 0;
        while k < preds.len()
            invariant
                k <= preds.len(),
                d < 0xffff,
                self.sized(n),
                n == w0.val.len(),
                forall|k: int| 0 <= k < preds.len() ==> #[trigger] preds[k] < n,
                self.count@ == w0.count,
                self.seen@ == w0.seen,
                self.done@ == w0.done,
                loss_prefix(w0, self.work(), d as int, preds@.take(k as int)),
            decreases preds.len() - k,
        {
            let y: usize = preds[k];
            let ghost w1 = self.work();
            self.apply_to_predecessor(y, d, true);
            proof {
                assert(preds@.take(k + 1).drop_last() =~= preds@.take(k as int));
                assert(preds@.take(k + 1).last() == y);
                lemma_loss_step(w0, w1, self.work(), d as int, preds@.take(k as int), preds@.take(k + 1), y);
            }
            k = k + 1;
        }
        let ghost w_end = self.work();
        self.done = Ghost(self.done@.insert(x));
        proof {
            assert(preds@.take(k as int) =~= preds@);
            assert(self.work().queue == w_end.queue);
            assert(self.work().val == w_end.val && self.work().count == w_end.count && self.work().seen == w_end.seen);
            assert forall|e: int, i: int|
                #![trigger fresh(w0, self.work(), e, i)]
                #![trigger fresh(w0, w_end, e, i)]
                fresh(w0, self.work(), e, i) == fresh(w0, w_end, e, i) by {}
            assert(grew(w0, self.work(), d as int));
        }
    }

    /// Apply the win of node `x` at depth `d` to its predecessors.
    fn apply_win(&mut self, preds: &Vec<usize>, d: u16, Ghost(x): Ghost<int>, Ghost(pair): Ghost<Pair>)
        requires
            old(self).sized(old(self).val.len() as int),
            d < 0xfffe,
            forall|k: int| 0 <= k < preds.len() ==> #[trigger] preds[k] < old(self).val.len(),
            forall|y: int|
                0 <= y < old(self).val.len() && old(self).count[y] != UNBOUNDED && #[trigger] occurrences(preds@, y) > 0
                    ==> occurrences(preds@, y) <= old(self).count[y] && old(self).seen[y] < 0xfffe,
        ensures
            after_win(pair, old(self).work(), final(self).work(), d as int, x, preds@),
            final(self).sized(old(self).val.len() as int),
    {
        let ghost w0 = self.work();
        let ghost n = self.val.len() as int;
        assert(preds@.take(0) =~= Seq::<usize>::empty());
        let mut k: usize = 0;
        while k < preds.len()
            invariant
                k <= preds.len(),
                d < 0xfffe,
                self.sized(n),
                n == w0.val.len(),
                w0.count.len() == n,
                w0.seen.len() == n,
                forall|k: int| 0 <= k < preds.len() ==> #[trigger] preds[k] < n,
                forall|y: int|
                    0 <= y < n && w0.count[y] != UNBOUNDED && #[trigger] occurrences(preds@, y) > 0 ==> occurrences(preds@, y)
                        <= w0.count[y] && w0.seen[y] < 0xfffe,
                self.done@ == w0.done,
                win_prefix(w0, self.work(), d as int, preds@.take(k as int)),
            decreases preds.len() - k,
        {
            let y: usize = preds[k];
            let ghost w1 = self.work();
            proof {
                lemma_occurrences_split(preds@, k as int, y as int);
                assert(w1.count[y as int] == w1.count[y as int]);
                assert(w1.seen[y as int] == w1.seen[y as int]);
            }
            self.apply_to_predecessor(y, d, false);
            proof {
                assert(preds@.take(k + 1).drop_last() =~= preds@.take(k as int));
                assert(preds@.take(k + 1).last() == y);
                lemma_win_step(w0, w1, self.work(), d as int, preds@.take(k as int), preds@.take(k + 1), y);
            }
            k = k + 1;
        }
        let ghost w_end = self.work();
        self.done = Ghost(self.done@.insert(x));
        proof {
            assert(preds@.take(k as int) =~= preds@);
            assert(self.work().queue == w_end.queue);
            assert(self.work().val == w_end.val && self.work().count == w_end.count && self.work().seen == w_end.seen);
            assert forall|e: int, i: int|
                #![trigger fresh(w0, self.work(), e, i)]
                #![trigger fresh(w0, w_end, e, i)]
                fresh(w0, self.work(), e, i) == fresh(w0, w_end, e, i) by {}
            assert(grew(w0, self.work(), d as int));
            assert forall|y: int| 0 <= y < n && #[trigger] exhausted(w0, self.work(), preds@, y) implies exists|i: int| #[trigger]
                fresh(w0, self.work(), self.work().val[y] as int, i) && at(self.work().queue, self.work().val[y] as int)[i].0
                    == y by {
                assert(exhausted(w0, w_end, preds@, y));
                let e = w_end.val[y] as int;
                let i = choose|i: int| #[trigger] fresh(w0, w_end, e, i) && at(w_end.queue, e)[i].0 == y;
                assert(fresh(w0, self.work(), e, i));
            }
        }
    }
}

/// The effect of a loss on the predecessors `preds`, but for `done`.
spec fn loss_prefix(w: Work, w2: Work, d: int, preds: Seq<usize>) -> bool {
    &&& w2.val.len() == w.val.len()
    &&& forall|y: int|
        0 <= y < w.val.len() ==> #[trigger] w2.val[y] == (if occurrences(preds, y) > 0 && w.val[y] == DRAW {
            (d + 1) as u16
        } else {
            w.val[y]
        })
    &&& grew(w, w2, d)
    &&& forall|e: int, i: int| #[trigger]
        fresh(w, w2, e, i) ==> {
            let (y, committed) = at(w2.queue, e)[i];
            &&& e == d + 1
            &&& 0 <= y < w.val.len()
            &&& occurrences(preds, y as int) > 0
            &&& w.val[y as int] == DRAW
            &&& committed == (d + 1 < 0xffff)
        }
    &&& forall|e: int, i: int, k: int| #[trigger]
        fresh(w, w2, e, i) && #[trigger] fresh(w, w2, e, k) && i < k && d + 1 < 0xffff ==> at(w2.queue, e)[i].0 != at(
            w2.queue,
            e,
        )[k].0
    &&& forall|y: int|
        0 <= y < w.val.len() && #[trigger] occurrences(preds, y) > 0 && w.val[y] == DRAW ==> exists|i: int| #[trigger]
            fresh(w, w2, d + 1, i) && at(w2.queue, d + 1)[i].0 == y
}

proof fn lemma_loss_step(w0: Work, w1: Work, w2: Work, d: int, before: Seq<usize>, after: Seq<usize>, y: usize)
    requires
        0 <= d < 0xffff,
        y < w0.val.len(),
        after.len() > 0,
        after.drop_last() == before,
        after.last() == y,
        loss_prefix(w0, w1, d, before),
        if w1.val[y as int] == DRAW {
            w2.val == w1.val.update(y as int, (d + 1) as u16) && pushed(w1.queue, w2.queue, d + 1, (y, d + 1 < 0xffff))
        } else {
            w2.val == w1.val && w2.queue == w1.queue
        },
    ensures
        loss_prefix(w0, w2, d, after),
{
    assert forall|z: int| #[trigger] occurrences(after, z) == occurrences(before, z) + if z == y {
        1nat
    } else {
        0
    } by {}
    assert(w1.val[y as int] == w1.val[y as int]);
    if w1.val[y as int] == DRAW {
        let entry = (y, d + 1 < 0xffff);
        let m = at(w1.queue, d + 1).len() as int;
        assert(at(w2.queue, d + 1) == at(w1.queue, d + 1).push(entry));
        assert forall|e: int, i: int| #[trigger] fresh(w0, w2, e, i) implies fresh(w0, w1, e, i) && at(w2.queue, e)[i] == at(
            w1.queue,
            e,
        )[i] || e == d + 1 && i == m && at(w2.queue, e)[i] == entry by {
            assert(at(w2.queue, e) == if e == d + 1 {
                at(w1.queue, e).push(entry)
            } else {
                at(w1.queue, e)
            });
        }
        assert forall|e: int, i: int| #[trigger] fresh(w0, w1, e, i) implies fresh(w0, w2, e, i) && at(w2.queue, e)[i] == at(
            w1.queue,
            e,
        )[i] by {
            assert(at(w2.queue, e) == if e == d + 1 {
                at(w1.queue, e).push(entry)
            } else {
                at(w1.queue, e)
            });
        }
        assert(at(w0.queue, d + 1).len() <= at(w1.queue, d + 1).len());
        assert(fresh(w0, w2, d + 1, m));
        assert forall|e: int| at(w0.queue, e).len() <= #[trigger] at(w2.queue, e).len() by {
            assert(at(w0.queue, e).len() <= at(w1.queue, e).len());
        }
        assert forall|e: int, i: int| 0 <= i < at(w0.queue, e).len() implies #[trigger] at(w2.queue, e)[i] == at(
            w0.queue,
            e,
        )[i] by {
            assert(at(w0.queue, e).len() <= at(w1.queue, e).len());
            assert(at(w1.queue, e)[i] == at(w0.queue, e)[i]);
            assert(at(w2.queue, e) == if e == d + 1 {
                at(w1.queue, e).push(entry)
            } else {
                at(w1.queue, e)
            });
        }
        assert forall|e: int| e <= d implies #[trigger] at(w2.queue, e) == at(w0.queue, e) by {
            assert(at(w1.queue, e) == at(w0.queue, e));
        }
        assert forall|e: int, i: int| #[trigger] fresh(w0, w2, e, i) implies ({
            let (z, committed) = at(w2.queue, e)[i];
            &&& e == d + 1
            &&& 0 <= z < w0.val.len()
            &&& occurrences(after, z as int) > 0
            &&& w0.val[z as int] == DRAW
            &&& committed == (d + 1 < 0xffff)
        }) by {
            let (z, committed) = at(w2.queue, e)[i];
            assert(occurrences(after, z as int) >= occurrences(before, z as int));
            if fresh(w0, w1, e, i) && at(w2.queue, e)[i] == at(w1.queue, e)[i] {
                assert(occurrences(before, z as int) > 0);
            }
        }
        assert forall|e: int, i: int, k: int| #[trigger]
            fresh(w0, w2, e, i) && #[trigger] fresh(w0, w2, e, k) && i < k && d + 1 < 0xffff implies at(w2.queue, e)[i].0 != at(
            w2.queue,
            e,
        )[k].0 by {
            assert(fresh(w0, w1, e, i));
            if !fresh(w0, w1, e, k) {
                let z = at(w1.queue, e)[i].0 as int;
                assert(w1.val[z] == (d + 1) as u16);
            }
        }
        assert forall|z: int|
            0 <= z < w0.val.len() && #[trigger] occurrences(after, z) > 0 && w0.val[z] == DRAW implies exists|i: int| #[trigger]
            fresh(w0, w2, d + 1, i) && at(w2.queue, d + 1)[i].0 == z by {
            if z == y {
                assert(fresh(w0, w2, d + 1, m) && at(w2.queue, d + 1)[m].0 == z);
            } else {
                assert(occurrences(before, z) > 0);
                let i = choose|i: int| #[trigger] fresh(w0, w1, d + 1, i) && at(w1.queue, d + 1)[i].0 == z;
                assert(fresh(w0, w2, d + 1, i) && at(w2.queue, d + 1)[i].0 == z);
            }
        }
    } else {
        assert forall|e: int, i: int|
            #![trigger fresh(w0, w2, e, i)]
            #![trigger fresh(w0, w1, e, i)]
            fresh(w0, w2, e, i) == fresh(w0, w1, e, i) by {}
        assert forall|e: int, i: int| #[trigger] fresh(w0, w2, e, i) implies ({
            let (z, committed) = at(w2.queue, e)[i];
            &&& e == d + 1
            &&& 0 <= z < w0.val.len()
            &&& occurrences(after, z as int) > 0
            &&& w0.val[z as int] == DRAW
            &&& committed == (d + 1 < 0xffff)
        }) by {
            let (z, committed) = at(w2.queue, e)[i];
            assert(fresh(w0, w1, e, i));
            assert(occurrences(after, z as int) >= occurrences(before, z as int));
        }
        assert forall|z: int|
            0 <= z < w0.val.len() && #[trigger] occurrences(after, z) > 0 && w0.val[z] == DRAW implies exists|i: int| #[trigger]
            fresh(w0, w2, d + 1, i) && at(w2.queue, d + 1)[i].0 == z by {
            assert(occurrences(before, z) > 0);
            let i = choose|i: int| #[trigger] fresh(w0, w1, d + 1, i) && at(w1.queue, d + 1)[i].0 == z;
            assert(fresh(w0, w2, d + 1, i) && at(w2.queue, d + 1)[i].0 == z);
        }
    }
}

/// The first `k` items of a list hold as many of an item as the list, at most,
/// and one less where the next is another.
proof fn lemma_occurrences_split(l: Seq<usize>, k: int, y: int)
    requires
        0 <= k < l.len(),
    ensures
        occurrences(l.take(k), y) <= occurrences(l, y),
        l[k] == y ==> occurrences(l.take(k), y) < occurrences(l, y),
    decreases l.len(),
{
    let r = l.drop_last();
    if k < r.len() {
        assert(r.take(k) =~= l.take(k));
        lemma_occurrences_split(r, k, y);
    } else {
        assert(l.take(k) =~= r);
    }
}

/// The effect of a win on the predecessors `preds`, but for `done`.
spec fn win_prefix(w: Work, w2: Work, d: int, preds: Seq<usize>) -> bool {
    &&& w2.val.len() == w.val.len()
    &&& w2.count.len() == w.count.len()
    &&& w2.seen.len() == w.seen.len()
    &&& forall|y: int|
        0 <= y < w.val.len() ==> #[trigger] w2.count[y] == (if w.count[y] == UNBOUNDED {
            UNBOUNDED as int
        } else {
            w.count[y] - occurrences(preds, y)
        })
    &&& forall|y: int|
        0 <= y < w.val.len() ==> #[trigger] w2.seen[y] == (if occurrences(preds, y) > 0 && w.seen[y] < d {
            d
        } else {
            w.seen[y] as int
        })
    &&& forall|y: int|
        0 <= y < w.val.len() ==> #[trigger] w2.val[y] == (if exhausted(w, w2, preds, y) {
            w2.seen[y] + 1
        } else {
            w.val[y] as int
        })
    &&& grew(w, w2, d)
    &&& forall|e: int, i: int| #[trigger]
        fresh(w, w2, e, i) ==> {
            let (y, committed) = at(w2.queue, e)[i];
            &&& 0 <= y < w.val.len()
            &&& exhausted(w, w2, preds, y as int)
            &&& e == w2.val[y as int]
            &&& committed
        }
    &&& forall|e: int, i: int, k: int| #[trigger]
        fresh(w, w2, e, i) && #[trigger] fresh(w, w2, e, k) && i < k ==> at(w2.queue, e)[i].0 != at(w2.queue, e)[k].0
    &&& forall|y: int|
        0 <= y < w.val.len() && #[trigger] exhausted(w, w2, preds, y) ==> exists|i: int| #[trigger]
            fresh(w, w2, w2.val[y] as int, i) && at(w2.queue, w2.val[y] as int)[i].0 == y
}

proof fn lemma_win_step(w0: Work, w1: Work, w2: Work, d: int, before: Seq<usize>, after: Seq<usize>, y: usize)
    requires
        0 <= d < 0xfffe,
        y < w0.val.len(),
        w0.count.len() == w0.val.len(),
        w0.seen.len() == w0.val.len(),
        after.len() > 0,
        after.drop_last() == before,
        after.last() == y,
        win_prefix(w0, w1, d, before),
        w1.count[y as int] != UNBOUNDED ==> w1.count[y as int] > 0 && w1.seen[y as int] < 0xfffe,
        ({
            let m = if w1.seen[y as int] < d {
                d
            } else {
                w1.seen[y as int] as int
            };
            &&& w2.seen == w1.seen.update(y as int, m as u16)
            &&& if w1.count[y as int] == UNBOUNDED {
                w2.count == w1.count
            } else {
                w2.count == w1.count.update(y as int, (w1.count[y as int] - 1) as u32)
            }
            &&& if w1.count[y as int] == 1 && w1.val[y as int] == DRAW {
                w2.val == w1.val.update(y as int, (m + 1) as u16) && pushed(w1.queue, w2.queue, m + 1, (y, true))
            } else {
                w2.val == w1.val && w2.queue == w1.queue
            }
        }),
    ensures
        win_prefix(w0, w2, d, after),
{
    assert forall|z: int| #[trigger] occurrences(after, z) == occurrences(before, z) + if z == y {
        1nat
    } else {
        0
    } by {}
    let gy = y as int;
    assert(w1.count[gy] == w1.count[gy]);
    assert(w1.seen[gy] == w1.seen[gy]);
    assert(w1.val[gy] == w1.val[gy]);
    assert(!exhausted(w0, w1, before, gy));
    assert forall|z: int| 0 <= z < w0.val.len() && z != gy implies w2.count[z] == w1.count[z] && w2.seen[z] == w1.seen[z] && w2.val[z]
        == w1.val[z] && #[trigger] exhausted(w0, w2, after, z) == exhausted(w0, w1, before, z) by {
        assert(occurrences(after, z) == occurrences(before, z));
    }
    assert(w0.count[gy] != UNBOUNDED <==> w1.count[gy] != UNBOUNDED);
    if w1.count[gy] == 1 && w1.val[gy] == DRAW {
        assert(exhausted(w0, w2, after, gy));
        let e0 = w2.val[gy] as int;
        let entry = (y, true);
        let m = at(w1.queue, e0).len() as int;
        assert(e0 > d);
        assert(at(w2.queue, e0) == at(w1.queue, e0).push(entry));
        assert forall|e: int, i: int| #[trigger] fresh(w0, w2, e, i) implies fresh(w0, w1, e, i) && at(w2.queue, e)[i] == at(
            w1.queue,
            e,
        )[i] || e == e0 && i == m && at(w2.queue, e)[i] == entry by {
            assert(at(w2.queue, e) == if e == e0 {
                at(w1.queue, e).push(entry)
            } else {
                at(w1.queue, e)
            });
        }
        assert forall|e: int, i: int| #[trigger] fresh(w0, w1, e, i) implies fresh(w0, w2, e, i) && at(w2.queue, e)[i] == at(
            w1.queue,
            e,
        )[i] by {
            assert(at(w2.queue, e) == if e == e0 {
                at(w1.queue, e).push(entry)
            } else {
                at(w1.queue, e)
            });
        }
        assert(at(w0.queue, e0).len() <= at(w1.queue, e0).len());
        assert(fresh(w0, w2, e0, m));
        assert forall|e: int| at(w0.queue, e).len() <= #[trigger] at(w2.queue, e).len() by {
            assert(at(w0.queue, e).len() <= at(w1.queue, e).len());
        }
        assert forall|e: int, i: int| 0 <= i < at(w0.queue, e).len() implies #[trigger] at(w2.queue, e)[i] == at(
            w0.queue,
            e,
        )[i] by {
            assert(at(w0.queue, e).len() <= at(w1.queue, e).len());
            assert(at(w1.queue, e)[i] == at(w0.queue, e)[i]);
            assert(at(w2.queue, e) == if e == e0 {
                at(w1.queue, e).push(entry)
            } else {
                at(w1.queue, e)
            });
        }
        assert forall|e: int| e <= d implies #[trigger] at(w2.queue, e) == at(w0.queue, e) by {
            assert(at(w1.queue, e) == at(w0.queue, e));
        }
        assert forall|e: int, i: int| #[trigger] fresh(w0, w2, e, i) implies ({
            let (z, committed) = at(w2.queue, e)[i];
            &&& 0 <= z < w0.val.len()
            &&& exhausted(w0, w2, after, z as int)
            &&& e == w2.val[z as int]
            &&& committed
        }) by {
            let (z, committed) = at(w2.queue, e)[i];
            if fresh(w0, w1, e, i) && at(w2.queue, e)[i] == at(w1.queue, e)[i] {
                assert(exhausted(w0, w1, before, z as int));
                assert(z != y);
                assert(exhausted(w0, w2, after, z as int));
            }
        }
        assert forall|e: int, i: int, k: int| #[trigger]
            fresh(w0, w2, e, i) && #[trigger] fresh(w0, w2, e, k) && i < k implies at(w2.queue, e)[i].0 != at(w2.queue, e)[k].0 by {
            assert(fresh(w0, w1, e, i));
            if !fresh(w0, w1, e, k) {
                let z = at(w1.queue, e)[i].0 as int;
                assert(exhausted(w0, w1, before, z));
            }
        }
        assert forall|z: int|
            0 <= z < w0.val.len() && #[trigger] exhausted(w0, w2, after, z) implies exists|i: int| #[trigger]
            fresh(w0, w2, w2.val[z] as int, i) && at(w2.queue, w2.val[z] as int)[i].0 == z by {
            if z == gy {
                assert(fresh(w0, w2, e0, m) && at(w2.queue, e0)[m].0 == z);
            } else {
                assert(exhausted(w0, w1, before, z));
                let e = w1.val[z] as int;
                let i = choose|i: int| #[trigger] fresh(w0, w1, e, i) && at(w1.queue, e)[i].0 == z;
                assert(fresh(w0, w2, e, i) && at(w2.queue, e)[i].0 == z);
            }
        }
    } else {
        assert(!exhausted(w0, w2, after, gy));
        assert forall|e: int, i: int|
            #![trigger fresh(w0, w2, e, i)]
            #![trigger fresh(w0, w1, e, i)]
            fresh(w0, w2, e, i) == fresh(w0, w1, e, i) by {}
        assert forall|e: int, i: int| #[trigger] fresh(w0, w2, e, i) implies ({
            let (z, committed) = at(w2.queue, e)[i];
            &&& 0 <= z < w0.val.len()
            &&& exhausted(w0, w2, after, z as int)
            &&& e == w2.val[z as int]
            &&& committed
        }) by {
            let (z, committed) = at(w2.queue, e)[i];
            assert(fresh(w0, w1, e, i));
            assert(exhausted(w0, w1, before, z as int));
            assert(z != y);
            assert(exhausted(w0, w2, after, z as int));
        }
        assert forall|z: int|
            0 <= z < w0.val.len() && #[trigger] exhausted(w0, w2, after, z) implies exists|i: int| #[trigger]
            fresh(w0, w2, w2.val[z] as int, i) && at(w2.queue, w2.val[z] as int)[i].0 == z by {
            assert(z != gy);
            assert(exhausted(w0, w1, before, z));
            let e = w1.val[z] as int;
            let i = choose|i: int| #[trigger] fresh(w0, w1, e, i) && at(w1.queue, e)[i].0 == z;
            assert(fresh(w0, w2, e, i) && at(w2.queue, e)[i].0 == z);
        }
    }
}

/// How many slots or entries are handed out to the threads at a time.
const CHUNK: usize = 0x1_0000;

/// No node has two entries.
spec fn one_entry_each(queue: Seq<Seq<(usize, bool)>>) -> bool {
    forall|e: int, i: int, f: int, k: int|
        0 <= i < at(queue, e).len() && 0 <= k < at(queue, f).len() && (#[trigger] at(queue, e)[i]).0 == (
        #[trigger] at(queue, f)[k]).0 ==> e == f && i == k
}

/// The entries and scratch values that the nodes below `n` give rise to: one
/// tentative entry for each node that captures alone would decide.
spec fn seeded(pair: Pair, w: Work, n: int) -> bool {
    &&& one_entry_each(w.queue)
    &&& w.count.len() == n
    &&& w.seen.len() == n
    &&& forall|x: int| x < n && #[trigger] pair.live(x) ==> seed_ok(pair, x, w.count[x], w.seen[x])
    &&& forall|e: int, i: int| 0 <= i < at(w.queue, e).len() ==> {
        let (x, committed) = #[trigger] at(w.queue, e)[i];
        !committed && x < n && e <= 0xffff && pair.live(x as int) && pair.tent(x as int, e as nat)
    }
    &&& forall|x: int, e: nat|
        x < n && pair.live(x) && #[trigger] pair.tent(x, e) ==> exists|i: int|
            0 <= i < at(w.queue, e as int).len() && #[trigger] at(w.queue, e as int)[i] == (x as usize, false)
}

proof fn lemma_seeded_step(pair: Pair, w: Work, w2: Work, n: int, seed: Seed)
    requires
        pair.wf(),
        0 <= n <= usize::MAX,
        seeded(pair, w, n),
        seed.ok(pair, n),
        w2.count == w.count.push(seed.count),
        w2.seen == w.seen.push(seed.seen),
        match seed.tentative {
            Some(d) => pushed(w.queue, w2.queue, d as int, (n as usize, false)),
            None => w2.queue == w.queue,
        },
    ensures
        seeded(pair, w2, n + 1),
{
    assert forall|x: int| x < n + 1 && #[trigger] pair.live(x) implies seed_ok(pair, x, w2.count[x], w2.seen[x]) by {
        if x < n {
            assert(w2.count[x] == w.count[x] && w2.seen[x] == w.seen[x]);
        }
    }
    match seed.tentative {
        Some(d) => {
            let entry = (n as usize, false);
            let m = at(w.queue, d as int).len() as int;
            assert(at(w2.queue, d as int) == at(w.queue, d as int).push(entry));
            assert forall|e: int, i: int| 0 <= i < at(w2.queue, e).len() implies ({
                let (x, committed) = #[trigger] at(w2.queue, e)[i];
                !committed && x < n + 1 && e <= 0xffff && pair.live(x as int) && pair.tent(x as int, e as nat)
            }) by {
                assert(at(w2.queue, e) == if e == d {
                    at(w.queue, e).push(entry)
                } else {
                    at(w.queue, e)
                });
                if i < at(w.queue, e).len() {
                    let (x, committed) = at(w.queue, e)[i];
                    assert(at(w2.queue, e)[i] == at(w.queue, e)[i]);
                } else {
                    assert(at(w2.queue, e)[i] == entry);
                }
            }
            assert forall|x: int, e: nat| x < n + 1 && pair.live(x) && #[trigger] pair.tent(x, e) implies exists|i: int|
                0 <= i < at(w2.queue, e as int).len() && #[trigger] at(w2.queue, e as int)[i] == (x as usize, false) by {
                if x == n {
                    lemma_tent_unique(pair, x, d as nat, e);
                    assert(at(w2.queue, e as int)[m] == (x as usize, false));
                } else {
                    let i = choose|i: int|
                        0 <= i < at(w.queue, e as int).len() && #[trigger] at(w.queue, e as int)[i] == (x as usize, false);
                    assert(at(w2.queue, e as int) == if e == d {
                        at(w.queue, e as int).push(entry)
                    } else {
                        at(w.queue, e as int)
                    });
                    assert(at(w2.queue, e as int)[i] == (x as usize, false));
                }
            }
            assert forall|e: int, i: int, f: int, k: int|
                0 <= i < at(w2.queue, e).len() && 0 <= k < at(w2.queue, f).len() && (#[trigger] at(w2.queue, e)[i]).0 == (
                #[trigger] at(w2.queue, f)[k]).0 implies e == f && i == k by {
                let (old_i, old_k) = (i < at(w.queue, e).len(), k < at(w.queue, f).len());
                assert(at(w2.queue, e) == if e == d {
                    at(w.queue, e).push(entry)
                } else {
                    at(w.queue, e)
                });
                assert(at(w2.queue, f) == if f == d {
                    at(w.queue, f).push(entry)
                } else {
                    at(w.queue, f)
                });
                if old_i {
                    assert(at(w.queue, e)[i] == at(w2.queue, e)[i]);
                }
                if old_k {
                    assert(at(w.queue, f)[k] == at(w2.queue, f)[k]);
                }
            }
        },
        None => {},
    }
}

/// Initialize the nodes of the pair in parallel, chunk by chunk: all values
/// undecided, the scratch values set, and the nodes that captures alone would
/// decide queued.
fn init_side(db: &Database, nodes: &Nodes, Ghost(pair): Ghost<Pair>) -> (solver: Solver)
    requires
        nodes.wf(pair),
        pair == pair_of(pair.a, pair.b, db),
        dependencies_met(pair.a, pair.b, db),
    ensures
        solver.sized(pair.nodes() as int),
        forall|x: int| 0 <= x < pair.nodes() ==> #[trigger] solver.val[x] == DRAW,
        solver.done@ == Set::<int>::empty(),
        seeded(pair, solver.work(), pair.nodes() as int),
        inv(pair, solver.work(), 0, 0, -1),
        exact_below(pair, solver.work(), 0),
{
    let len: usize = nodes.len;
    let mut solver = Solver {
        val: Vec::new(),
        count: Vec::new(),
        seen: Vec::new(),
        buckets: Vec::new(),
        done: Ghost(Set::empty()),
    };
    let mut base: usize = 0;
    while base < len
        invariant
            base <= len,
            len == nodes.len,
            nodes.wf(pair),
            pair == pair_of(pair.a, pair.b, db),
            dependencies_met(pair.a, pair.b, db),
            solver.val.len() == base,
            forall|x: int| 0 <= x < base ==> #[trigger] solver.val[x] == DRAW,
            solver.done@ == Set::<int>::empty(),
            seeded(pair, solver.work(), base as int),
            solver.buckets.len() <= 0x1_0000,
        decreases len - base,
    {
        let n: usize = if len - base < CHUNK {
            len - base
        } else {
            CHUNK
        };
        let init = |i: usize| -> (seed: Seed)
            requires
                (n > i),
            ensures
                seed.ok(pair_of(nodes.a as nat, nodes.b as nat, db), base + i),
        {
            init_slot(db, nodes, base + i, Ghost(pair_of(nodes.a as nat, nodes.b as nat, db)))
        };
        let seeds: Vec<Seed> = par_map(n, init);
        let mut i: usize = 0;
        while i < n
            invariant
                i <= n,
                n == seeds.len(),
                base + n <= len,
                len == nodes.len,
                nodes.wf(pair),
                solver.val.len() == base + i,
                forall|x: int| 0 <= x < base + i ==> #[trigger] solver.val[x] == DRAW,
                solver.done@ == Set::<int>::empty(),
                seeded(pair, solver.work(), base + i),
                solver.buckets.len() <= 0x1_0000,
                forall|k: usize| k < n ==> (#[trigger] seeds[k as int]).ok(pair, base + k),
            decreases n - i,
        {
            let ghost before = solver.work();
            solver.val.push(DRAW);
            solver.count.push(seeds[i].count);
            solver.seen.push(seeds[i].seen);
            if let Some(d) = seeds[i].tentative {
                push_bucket(&mut solver.buckets, d, base + i, false);
            }
            proof {
                assert(seeds[i as int].ok(pair, base + i));
                lemma_seeded_step(pair, before, solver.work(), base + i, seeds[i as int]);
            }
            i = i + 1;
        }
        base = base + n;
    }
    proof {
        lemma_start(pair, solver.work());
    }
    solver
}

/// Values at depth `d` or later do not disturb those below `d`.
proof fn lemma_exact_frame(pair: Pair, w: Work, w2: Work, d: nat)
    requires
        exact_below(pair, w, d),
        forall|y: int| #[trigger] pair.live(y) ==> w2.val[y] == w.val[y] || w.val[y] == DRAW && w2.val[y] >= d,
    ensures
        exact_below(pair, w2, d),
{
    assert forall|x: int| #[trigger] pair.live(x) implies crate::game::decided_below(pair.smaller, d)(pair.pos(x))
        == crate::game::cut(decode(w2.val[x]), d) by {
        assert(crate::game::decided_below(pair.smaller, d)(pair.pos(x)) == crate::game::cut(decode(w.val[x]), d));
    }
}

/// What is computed ahead for an entry: the predecessors of its node, unless
/// the entry is tentative and its node decided.
spec fn preds_ok(pair: Pair, val: Seq<u16>, entry: (usize, bool), preds: Seq<usize>) -> bool {
    entry.1 || val[entry.0 as int] == DRAW ==> {
        &&& nodes_of(pair, preds, quiet_preds(pair.pos(entry.0 as int)))
        &&& forall|k: int| 0 <= k < preds.len() ==> pair.live(#[trigger] preds[k] as int)
    }
}

/// Entry `j` of bucket `d`, the next to be read: where it is due, commits its
/// node and applies the consequences to the predecessors. Returns whether the
/// depth fits a code.
fn process(solver: &mut Solver, d: usize, j: usize, preds: &Vec<usize>, Ghost(pair): Ghost<Pair>) -> (ok: bool)
    requires
        old(solver).sized(pair.nodes() as int),
        inv(pair, old(solver).work(), d as int, j as int, -1),
        exact_below(pair, old(solver).work(), d as nat),
        d < old(solver).buckets.len(),
        j < old(solver).buckets[d as int].len(),
        preds_ok(pair, old(solver).val@, old(solver).buckets[d as int][j as int], preds@),
    ensures
        ok ==> {
            &&& final(solver).sized(pair.nodes() as int)
            &&& inv(pair, final(solver).work(), d as int, j + 1, -1)
            &&& exact_below(pair, final(solver).work(), d as nat)
            &&& at(final(solver).work().queue, d as int) == at(old(solver).work().queue, d as int)
            &&& forall|y: int|
                0 <= y < pair.nodes() && #[trigger] final(solver).val[y] == DRAW ==> old(solver).val[y] == DRAW
        },
        !ok ==> exists|x: int| #[trigger] pair.live(x) && score(pair.smaller, pair.pos(x)) == Score::Win(0xffff),
{
    let (x, committed) = solver.buckets[d][j];
    let ghost w = solver.work();
    let ghost gx = x as int;
    proof {
        assert(at(w.queue, d as int) == solver.buckets[d as int]@);
        assert(crate::propagate::unread(w, d as int, j as int, d as int, j as int));
        assert(pair.live(gx));
    }
    if !committed {
        if solver.val[x] != DRAW {
            proof {
                lemma_read_stale(pair, w, d as int, j as int, gx);
            }
            return true;
        }
        if d >= 0xffff {
            proof {
                lemma_too_deep(pair, w, j as int, gx);
            }
            return false;
        }
        solver.val[x] = d as u16;
        proof {
            assert(solver.work() =~= (Work { val: w.val.update(gx, d as u16), ..w }));
            lemma_commit(pair, w, d as int, j as int, gx, solver.work());
        }
    } else {
        proof {
            lemma_read_committed(pair, w, d as int, j as int, gx);
        }
    }
    let ghost w1 = solver.work();
    assert forall|k: int| 0 <= k < preds.len() implies #[trigger] preds[k] < solver.val.len() by {
        assert(pair.live(preds[k] as int));
    }
    if d % 2 == 0 {
        solver.apply_loss(preds, d as u16, Ghost(gx), Ghost(pair));
        proof {
            lemma_loss_item(pair, w1, d as int, j + 1, gx, preds@, solver.work());
        }
    } else {
        assert forall|y: int|
            0 <= y < solver.val.len() && solver.count[y] != UNBOUNDED && #[trigger] occurrences(preds@, y) > 0 implies occurrences(
            preds@,
            y,
        ) <= solver.count[y] && solver.seen[y] < 0xfffe by {
            lemma_occurs(preds@, y);
            let k = choose|k: int| 0 <= k < preds.len() && #[trigger] preds@[k] == y;
            assert(pair.live(preds[k] as int));
            lemma_awaits(pair, w1, d as int, j + 1, gx, preds@, y);
        }
        solver.apply_win(preds, d as u16, Ghost(gx), Ghost(pair));
        proof {
            lemma_win_item(pair, w1, d as int, j + 1, gx, preds@, solver.work());
        }
    }
    proof {
        let w2 = solver.work();
        assert(at(w2.queue, d as int) == at(w1.queue, d as int));
        assert forall|y: int| 0 <= y < pair.nodes() implies #[trigger] w2.val[y] == w1.val[y] || w1.val[y] == DRAW && w2.val[y] >= d by {}
        lemma_exact_frame(pair, w, w2, d as nat);
        assert forall|y: int| 0 <= y < pair.nodes() && #[trigger] solver.val[y] == DRAW implies w.val[y] == DRAW by {
            assert(w2.val[y] == solver.val[y]);
        }
    }
    true
}

/// Works off the buckets in order of depth. The predecessors of the entries
/// of a bucket are computed in parallel, chunk by chunk, and the updates
/// applied one by one. Returns whether all depths fit a code.
fn propagate(solver: &mut Solver, db: &Database, nodes: &Nodes, Ghost(pair): Ghost<Pair>) -> (ok: bool)
    requires
        nodes.wf(pair),
        pair == pair_of(pair.a, pair.b, db),
        old(solver).sized(pair.nodes() as int),
        inv(pair, old(solver).work(), 0, 0, -1),
        exact_below(pair, old(solver).work(), 0),
    ensures
        ok ==> {
            &&& final(solver).sized(pair.nodes() as int)
            &&& forall|x: int| #[trigger]
                pair.live(x) ==> decode(final(solver).val[x]) == score(pair.smaller, pair.pos(x))
            &&& forall|x: int| 0 <= x < pair.nodes() && !#[trigger] pair.live(x) ==> final(solver).val[x] == DRAW
        },
        !ok ==> exists|x: int| #[trigger] pair.live(x) && score(pair.smaller, pair.pos(x)) == Score::Win(0xffff),
{
    let mut d: usize = 0;
    while d < solver.buckets.len()
        invariant
            nodes.wf(pair),
            pair == pair_of(pair.a, pair.b, db),
            solver.sized(pair.nodes() as int),
            inv(pair, solver.work(), d as int, 0, -1),
            exact_below(pair, solver.work(), d as nat),
        decreases 0x1_0000 - d,
    {
        let ghost start = solver.work();
        let len: usize = solver.buckets[d].len();
        let mut j: usize = 0;
        while j < len
            invariant
                nodes.wf(pair),
                pair == pair_of(pair.a, pair.b, db),
                solver.sized(pair.nodes() as int),
                d < solver.buckets.len(),
                j <= len,
                len == solver.buckets[d as int].len(),
                inv(pair, solver.work(), d as int, j as int, -1),
                exact_below(pair, solver.work(), d as nat),
            decreases len - j,
        {
            let m: usize = if len - j < CHUNK {
                len - j
            } else {
                CHUNK
            };
            let ghost base = solver.work();
            proof {
                assert(at(base.queue, d as int) == solver.buckets[d as int]@);
                assert forall|k: int| 0 <= k < m implies (#[trigger] solver.buckets[d as int][j + k]).0 < nodes.len by {
                    assert(crate::propagate::unread(base, d as int, j as int, d as int, j + k));
                }
            }
            let bucket: &Vec<(usize, bool)> = &solver.buckets[d];
            let val: &Vec<u16> = &solver.val;
            let ahead = |k: usize| -> (preds: Vec<usize>)
                requires
                    (m > k),
                ensures
                    preds_ok(pair_of(nodes.a as nat, nodes.b as nat, db), val@, bucket[j + k], preds@),
            {
                assert(bucket[j + k].0 < nodes.len);
                let (x, committed) = bucket[j + k];
                if committed || val[x] == DRAW {
                    nodes.predecessors(x, Ghost(pair_of(nodes.a as nat, nodes.b as nat, db)))
                } else {
                    Vec::new()
                }
            };
            let lists: Vec<Vec<usize>> = par_map(m, ahead);
            assert forall|k: usize| k < m implies preds_ok(
                pair,
                base.val,
                at(base.queue, d as int)[j + k],
                #[trigger] lists[k as int]@,
            ) by {}
            let mut k: usize = 0;
            while k < m
                invariant
                    k <= m,
                    m == lists.len(),
                    j + m <= len,
                    solver.sized(pair.nodes() as int),
                    d < solver.buckets.len(),
                    len == solver.buckets[d as int].len(),
                    inv(pair, solver.work(), d as int, j + k, -1),
                    exact_below(pair, solver.work(), d as nat),
                    at(solver.work().queue, d as int) == at(base.queue, d as int),
                    forall|y: int| 0 <= y < pair.nodes() && #[trigger] solver.val[y] == DRAW ==> base.val[y] == DRAW,
                    forall|k: usize|
                        k < m ==> preds_ok(pair, base.val, at(base.queue, d as int)[j + k], #[trigger] lists[k as int]@),
                decreases m - k,
            {
                proof {
                    assert(preds_ok(pair, base.val, at(base.queue, d as int)[j + k], lists[k as int]@));
                    assert(at(solver.work().queue, d as int) == solver.buckets[d as int]@);
                    assert(crate::propagate::unread(solver.work(), d as int, j + k, d as int, j + k));
                    let x = solver.buckets[d as int][j + k].0 as int;
                    assert(pair.live(x));
                    assert(solver.val[x] == DRAW ==> base.val[x] == DRAW);
                }
                if !process(solver, d, j + k, &lists[k], Ghost(pair)) {
                    return false;
                }
                proof {
                    let q = at(solver.work().queue, d as int);
                    assert(q.len() > 0);
                    assert(d < solver.buckets.len());
                }
                k = k + 1;
            }
            j = j + m;
        }
        let ghost w = solver.work();
        solver.buckets[d] = Vec::new();
        proof {
            let w2 = solver.work();
            assert(at(w.queue, d as int).len() <= j);
            assert forall|e: int| d < e implies #[trigger] at(w2.queue, e) == at(w.queue, e) by {}
            lemma_next_bucket(pair, w, d as int, j as int, w2);
            lemma_exact_frame(pair, w, w2, d as nat);
            lemma_exact_step(pair, w2, d as nat);
        }
        d = d + 1;
    }
    proof {
        let w = solver.work();
        assert forall|x: int| #[trigger] pair.live(x) implies decode(solver.val[x]) == score(pair.smaller, pair.pos(x)) by {
            assert forall|e: int| d <= e implies #[trigger] at(w.queue, e).len() == 0 by {}
            lemma_solved(pair, w, d as nat, x);
        }
    }
    true
}

/// The values of both subspaces of a pair.
pub struct PairResult {
    pub a: usize,
    pub b: usize,
    /// Values for subspace `(a, b)`.
    pub val_ab: Vec<u16>,
    /// Values for subspace `(b, a)`.
    pub val_ba: Vec<u16>,
}

/// Some position of the pair takes more plies than a code can hold.
#[derive(Debug)]
pub struct DepthOverflow;

/// `vals` are the values of subspace `sub`: each canonical slot holds the
/// worth of its position, each wasted slot the draw code.
pub open spec fn solves(smaller: spec_fn(Position) -> Score, sub: SubspaceId, vals: Seq<u16>) -> bool {
    &&& vals.len() == slots(sub)
    &&& forall|i: int|
        0 <= i < vals.len() ==> if canonical_slot(sub, i as nat) {
            decode(#[trigger] vals[i]) == score(smaller, slot_pos(sub, i as nat))
        } else {
            vals[i] == DRAW
        }
}

/// There is one way to fill a subspace: solving it again gives the same values.
pub proof fn solving_again_gives_the_same(
    smaller: spec_fn(Position) -> Score,
    sub: SubspaceId,
    first: Seq<u16>,
    second: Seq<u16>,
)
    requires
        solves(smaller, sub, first),
        solves(smaller, sub, second),
    ensures
        first == second,
{
    assert forall|i: int| 0 <= i < first.len() implies first[i] == second[i] by {
        if canonical_slot(sub, i as nat) {
            assert(decode(first[i]) == score(smaller, slot_pos(sub, i as nat)));
            assert(decode(second[i]) == score(smaller, slot_pos(sub, i as nat)));
        }
    }
    assert(first =~= second);
}

/// Every depth of the pair fits a code.
pub open spec fn depths_fit(a: nat, b: nat, smaller: spec_fn(Position) -> Score) -> bool {
    forall|p: Position| #[trigger] in_pair(a, b, p) ==> depth(score(smaller, p)) < 0xffff
}

/// The worth of a position is that of its canonical form.
pub proof fn worth_is_symmetry_invariant(pair: Pair, p: Position)
    requires
        pair.wf(),
        in_pair(pair.a, pair.b, p),
    ensures
        score(pair.smaller, p) == score(pair.smaller, canon(p)),
{
    let n = depth(score(pair.smaller, p)) + depth(score(pair.smaller, canon(p))) + 1;
    lemma_node(pair, p);
    lemma_decided_node(pair, p, n);
    lemma_score(pair.smaller, p, n);
    lemma_score(pair.smaller, canon(p), n);
}

/// The values of a solved subspace give the worth of every position of it.
pub proof fn solved_values_cover_all_positions(a: nat, b: nat, db: &Database, sub: SubspaceId, vals: Seq<u16>, p: Position)
    requires
        stones(a as int),
        stones(b as int),
        in_pair(a, b, p),
        subspace_of(p) == sub,
        solves(|s: Position| db.worth(s), sub, vals),
    ensures
        slot_of(p) < vals.len(),
        decode(vals[slot_of(p) as int]) == score(|s: Position| db.worth(s), p),
{
    let pair = pair_of(a, b, db);
    lemma_pair_wf(a, b, db);
    lemma_node(pair, p);
    slots_hold_canonical_forms(p);
    worth_is_symmetry_invariant(pair, p);
    assert(vals[slot_of(p) as int] == vals[slot_of(p) as int]);
}

/// Self-paired case (`a == b`): the two subspaces coincide, so there is one
/// array, and every quiet move leads back into it.
fn solve_self_paired(a: usize, db: &Database) -> (r: Result<Vec<u16>, DepthOverflow>)
    requires
        stones(a as int),
        dependencies_met(a as nat, a as nat, db),
        pair_of(a as nat, a as nat, db).nodes() <= usize::MAX,
    ensures
        match r {
            Ok(vals) => solves(
                |s: Position| db.worth(s),
                SubspaceId { w: a as u8, b: a as u8 },
                vals@,
            ),
            Err(_) => !depths_fit(a as nat, a as nat, |s: Position| db.worth(s)),
        },
{
    let ghost pair = pair_of(a as nat, a as nat, db);
    let nodes = Nodes::new(db, a, a);
    let mut solver = init_side(db, &nodes, Ghost(pair));
    if !propagate(&mut solver, db, &nodes, Ghost(pair)) {
        proof {
            lemma_overflow_seen(pair);
        }
        return Err(DepthOverflow);
    }
    proof {
        assert forall|i: int| 0 <= i < solver.val.len() implies if canonical_slot(pair.ab(), i as nat) {
            decode(#[trigger] solver.val@[i]) == score(pair.smaller, slot_pos(pair.ab(), i as nat))
        } else {
            solver.val@[i] == DRAW
        } by {
            assert(pair.pos(i) == slot_pos(pair.ab(), i as nat));
            assert(pair.live(i) == canonical_slot(pair.ab(), i as nat));
        }
    }
    Ok(solver.val)
}

proof fn lemma_overflow_seen(pair: Pair)
    requires
        pair.wf(),
        exists|x: int| #[trigger] pair.live(x) && score(pair.smaller, pair.pos(x)) == Score::Win(0xffff),
    ensures
        !depths_fit(pair.a, pair.b, pair.smaller),
{
    let x = choose|x: int| #[trigger] pair.live(x) && score(pair.smaller, pair.pos(x)) == Score::Win(0xffff);
    lemma_node_pos(pair, x);
    assert(in_pair(pair.a, pair.b, pair.pos(x)));
}

/// What is owed for the pair `{a, b}` over the worths that captures lead to: the
/// values of both subspaces, if every depth fits a code.
pub open spec fn pair_solved(
    r: Result<PairResult, DepthOverflow>,
    a: usize,
    b: usize,
    smaller: spec_fn(Position) -> Score,
) -> bool {
    match r {
        Ok(p) => {
            &&& p.a == a
            &&& p.b == b
            &&& a == b ==> p.val_ab@ == p.val_ba@
            &&& solves(smaller, SubspaceId { w: a as u8, b: b as u8 }, p.val_ab@)
            &&& solves(smaller, SubspaceId { w: b as u8, b: a as u8 }, p.val_ba@)
            &&& depths_fit(a as nat, b as nat, smaller)
        },
        Err(_) => !depths_fit(a as nat, b as nat, smaller),
    }
}

/// Solving a pair twice over the same worths gives the same result.
pub proof fn reruns_are_identical(
    a: usize,
    b: usize,
    smaller: spec_fn(Position) -> Score,
    first: Result<PairResult, DepthOverflow>,
    second: Result<PairResult, DepthOverflow>,
)
    requires
        pair_solved(first, a, b, smaller),
        pair_solved(second, a, b, smaller),
    ensures
        match (first, second) {
            (Ok(p), Ok(q)) => p.a == q.a && p.b == q.b && p.val_ab@ == q.val_ab@ && p.val_ba@ == q.val_ba@,
            (Err(_), Err(_)) => true,
            _ => false,
        },
{
    if let (Ok(p), Ok(q)) = (first, second) {
        solving_again_gives_the_same(smaller, SubspaceId { w: a as u8, b: b as u8 }, p.val_ab@, q.val_ab@);
        solving_again_gives_the_same(smaller, SubspaceId { w: b as u8, b: a as u8 }, p.val_ba@, q.val_ba@);
    }
}

/// Solve the unordered pair `{a, b}`. All pairs with fewer stones that a
/// capture leads to must be registered in `db`.
pub fn solve_pair(a: usize, b: usize, db: &Database) -> (r: Result<PairResult, DepthOverflow>)
    requires
        stones(a as int),
        stones(b as int),
        dependencies_met(a as nat, b as nat, db),
        pair_of(a as nat, b as nat, db).nodes() <= usize::MAX,
    ensures
        pair_solved(r, a, b, |s: Position| db.worth(s)),
{
    let ghost pair = pair_of(a as nat, b as nat, db);
    let ghost (ab, ba) = (SubspaceId { w: a as u8, b: b as u8 }, SubspaceId { w: b as u8, b: a as u8 });
    if a == b {
        return match solve_self_paired(a, db) {
            Ok(val) => {
                let copy = copy_values(&val);
                proof {
                    lemma_depths_fit(a as nat, b as nat, db, val@, val@);
                }
                Ok(PairResult { a, b, val_ab: copy, val_ba: val })
            },
            Err(e) => Err(e),
        };
    }
    let nodes = Nodes::new(db, a, b);
    let mut solver = init_side(db, &nodes, Ghost(pair));
    if !propagate(&mut solver, db, &nodes, Ghost(pair)) {
        proof {
            lemma_overflow_seen(pair);
        }
        return Err(DepthOverflow);
    }
    let mut val_ab: Vec<u16> = solver.val;
    let ghost val = val_ab@;
    let val_ba: Vec<u16> = val_ab.split_off(nodes.size_ab);
    proof {
        let n = slots(ab) as int;
        assert forall|i: int| 0 <= i < val_ab@.len() implies if canonical_slot(ab, i as nat) {
            decode(#[trigger] val_ab@[i]) == score(pair.smaller, slot_pos(ab, i as nat))
        } else {
            val_ab@[i] == DRAW
        } by {
            assert(val_ab@[i] == val[i]);
            assert(pair.pos(i) == slot_pos(ab, i as nat));
            assert(pair.live(i) == canonical_slot(ab, i as nat));
        }
        assert forall|i: int| 0 <= i < val_ba@.len() implies if canonical_slot(ba, i as nat) {
            decode(#[trigger] val_ba@[i]) == score(pair.smaller, slot_pos(ba, i as nat))
        } else {
            val_ba@[i] == DRAW
        } by {
            assert(val_ba@[i] == val[n + i]);
            assert(pair.pos(n + i) == slot_pos(ba, i as nat));
            assert(pair.live(n + i) == canonical_slot(ba, i as nat));
        }
        lemma_depths_fit(a as nat, b as nat, db, val_ab@, val_ba@);
    }
    Ok(PairResult { a, b, val_ab, val_ba })
}

/// Values that solve a pair show that its depths fit a code.
proof fn lemma_depths_fit(a: nat, b: nat, db: &Database, val_ab: Seq<u16>, val_ba: Seq<u16>)
    requires
        stones(a as int),
        stones(b as int),
        solves(|s: Position| db.worth(s), SubspaceId { w: a as u8, b: b as u8 }, val_ab),
        solves(|s: Position| db.worth(s), SubspaceId { w: b as u8, b: a as u8 }, val_ba),
    ensures
        depths_fit(a, b, |s: Position| db.worth(s)),
{
    let smaller = |s: Position| db.worth(s);
    assert forall|p: Position| #[trigger] in_pair(a, b, p) implies depth(score(smaller, p)) < 0xffff by {
        if count(p.w()) == a {
            solved_values_cover_all_positions(a, b, db, SubspaceId { w: a as u8, b: b as u8 }, val_ab, p);
        } else {
            solved_values_cover_all_positions(a, b, db, SubspaceId { w: b as u8, b: a as u8 }, val_ba, p);
        }
    }
}

/// A copy of an array of values.
fn copy_values(v: &Vec<u16>) -> (r: Vec<u16>)
    ensures
        r@ == v@,
{
    let mut r: Vec<u16> = Vec::new();
    let mut i: usize = 0;
    while i < v.len()
        invariant
            i <= v.len(),
            r@ == v@.take(i as int),
        decreases v.len() - i,
    {
        r.push(v[i]);
        assert(r@ =~= v@.take(i + 1));
        i = i + 1;
    }
    assert(v@.take(i as int) =~= v@);
    r
}

/// The slots that hold no canonical form hold the draw code.
pub proof fn wasted_slots_hold_the_draw_code(
    smaller: spec_fn(Position) -> Score,
    sub: SubspaceId,
    vals: Seq<u16>,
    i: int,
)
    requires
        solves(smaller, sub, vals),
        0 <= i < vals.len(),
        canon(slot_pos(sub, i as nat)) != slot_pos(sub, i as nat),
    ensures
        vals[i] == 0xffff,
        vals.len() == slots(sub),
{
}

/// A pair is given up exactly when some position of it takes more plies than a code can
/// hold: 65535 or more.
pub proof fn pairs_are_given_up_only_for_depth(
    r: Result<PairResult, DepthOverflow>,
    a: usize,
    b: usize,
    smaller: spec_fn(Position) -> Score,
)
    requires
        pair_solved(r, a, b, smaller),
    ensures
        r is Err <==> exists|p: Position| #[trigger]
            in_pair(a as nat, b as nat, p) && match score(smaller, p) {
                Score::Win(d) => d >= 65535,
                Score::Loss(d) => d >= 65535,
                Score::Draw => false,
            },
{
    if r is Err {
        let p = choose|p: Position| #[trigger] in_pair(a as nat, b as nat, p) && !(depth(score(smaller, p)) < 0xffff);
        assert(in_pair(a as nat, b as nat, p));
    }
}

} // verus!
