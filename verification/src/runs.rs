//! What whole runs over the pairs leave on disk.

use vstd::prelude::*;

use crate::game::Score;
use crate::index::{is_pair, pair_before, slots, stones, SubspaceId};
use crate::orchestrate::{describes, done, in_order, recorded, recorded_pairs_are_done, with_pair, within};
use crate::persist::{
    bytes_of, lemma_lookup_others, lookup, others, solved, upsert_then_find, upserted, ManifestEntry,
};
use crate::pos::Position;
use crate::retro::{solves, PairResult};

verus! {

/// A database directory: the entries of the manifest, and the value files.
pub ghost struct Disk {
    pub entries: Seq<ManifestEntry>,
    pub files: Map<(usize, usize), Seq<u8>>,
}

impl Disk {
    /// The value file of a subspace, if it is there.
    pub open spec fn file(self, w: usize, b: usize) -> Option<Seq<u8>> {
        if self.files.contains_key((w, b)) {
            Some(self.files[(w, b)])
        } else {
            None
        }
    }

    /// The subspace is listed, and its file agrees with its entry.
    pub open spec fn has(self, w: usize, b: usize) -> bool {
        solved(self.entries, w as int, b as int, self.file(w, b))
    }

    /// Both subspaces of the pair are there.
    pub open spec fn done(self, p: (usize, usize)) -> bool {
        done(self.entries, p, self.file(p.0, p.1), self.file(p.1, p.0))
    }

    /// The directory after the values of a pair were written.
    pub open spec fn written(self, after: Disk, r: PairResult) -> bool {
        &&& after.files == self.files.insert((r.a, r.b), bytes_of(r.val_ab@)).insert((r.b, r.a), bytes_of(r.val_ba@))
        &&& exists|s: u64, t: u64| recorded(self.entries, after.entries, r, s, t)
    }

    /// What a run does with a pair: nothing if it is done, else its values,
    /// one for each slot, are written and recorded.
    pub open spec fn step(self, after: Disk, p: (usize, usize)) -> bool {
        if self.done(p) {
            after == self
        } else {
            exists|r: PairResult|
                {
                    &&& r.a == p.0
                    &&& r.b == p.1
                    &&& r.a == r.b ==> r.val_ab@ == r.val_ba@
                    &&& r.val_ab@.len() == slots(SubspaceId { w: r.a as u8, b: r.b as u8 })
                    &&& r.val_ba@.len() == slots(SubspaceId { w: r.b as u8, b: r.a as u8 })
                    &&& #[trigger] self.written(after, r)
                }
        }
    }
}

/// Solving the current pair, writing its values and recording them is a step of
/// a run.
pub proof fn solved_pairs_make_a_step(
    d: Disk,
    e: Disk,
    r: PairResult,
    smaller: spec_fn(Position) -> Score,
    time_ab: u64,
    time_ba: u64,
)
    requires
        !d.done((r.a, r.b)),
        r.a == r.b ==> r.val_ab@ == r.val_ba@,
        solves(smaller, SubspaceId { w: r.a as u8, b: r.b as u8 }, r.val_ab@),
        solves(smaller, SubspaceId { w: r.b as u8, b: r.a as u8 }, r.val_ba@),
        recorded(d.entries, e.entries, r, time_ab, time_ba),
        e.files == d.files.insert((r.a, r.b), bytes_of(r.val_ab@)).insert((r.b, r.a), bytes_of(r.val_ba@)),
    ensures
        d.step(e, (r.a, r.b)),
{
    assert(d.written(e, r));
}

/// A run over the pairs: the directory before each pair, and at the end.
pub open spec fn is_run(trace: Seq<Disk>, pairs: Seq<(usize, usize)>) -> bool {
    &&& trace.len() == pairs.len() + 1
    &&& forall|i: int| 0 <= i < pairs.len() ==> (#[trigger] trace[i]).step(trace[i + 1], pairs[i])
}

/// No subspace is listed twice.
pub open spec fn listed_once(entries: Seq<ManifestEntry>) -> bool
    decreases entries.len(),
{
    entries.len() > 0 ==> {
        &&& listed_once(entries.drop_last())
        &&& lookup(entries.drop_last(), entries.last().w as int, entries.last().b as int) is None
    }
}

proof fn lemma_others_once(entries: Seq<ManifestEntry>, w: int, b: int)
    requires
        listed_once(entries),
    ensures
        listed_once(others(entries, w, b)),
    decreases entries.len(),
{
    if entries.len() > 0 {
        let (rest, e) = (entries.drop_last(), entries.last());
        lemma_others_once(rest, w, b);
        lemma_lookup_others(rest, w, b, e.w as int, e.b as int);
        assert(others(rest, w, b).push(e).drop_last() =~= others(rest, w, b));
    }
}

proof fn lemma_upserted_once(entries: Seq<ManifestEntry>, e: ManifestEntry)
    requires
        listed_once(entries),
    ensures
        listed_once(upserted(entries, e)),
{
    let l = others(entries, e.w as int, e.b as int);
    lemma_others_once(entries, e.w as int, e.b as int);
    lemma_lookup_others(entries, e.w as int, e.b as int, e.w as int, e.b as int);
    assert(l.push(e).drop_last() =~= l);
}

/// The subspace is one of the two of the pair.
pub open spec fn of_pair(p: (usize, usize), w: int, b: int) -> bool {
    p.0 == w && p.1 == b || p.1 == w && p.0 == b
}

/// Writing a pair makes it done, with as many values as slots, and leaves the
/// other subspaces alone.
proof fn lemma_written(d: Disk, e: Disk, r: PairResult)
    requires
        is_pair((r.a, r.b)),
        d.written(e, r),
        r.a == r.b ==> r.val_ab@ == r.val_ba@,
    ensures
        e.done((r.a, r.b)),
        lookup(e.entries, r.a as int, r.b as int) matches Some(x) && x.size == r.val_ab@.len(),
        lookup(e.entries, r.b as int, r.a as int) matches Some(x) && x.size == r.val_ba@.len(),
        forall|w: int, b: int| !of_pair((r.a, r.b), w, b) ==> #[trigger] lookup(e.entries, w, b) == lookup(d.entries, w, b),
        forall|w: usize, b: usize|
            !of_pair((r.a, r.b), w as int, b as int) ==> #[trigger] e.file(w, b) == d.file(w, b),
        listed_once(d.entries) ==> listed_once(e.entries),
{
    let (s, t) = choose|s: u64, t: u64| recorded(d.entries, e.entries, r, s, t);
    recorded_pairs_are_done(d.entries, e.entries, r, s, t);
    assert(e.file(r.b, r.a) == Some(bytes_of(r.val_ba@)));
    assert(e.file(r.a, r.b) == Some(bytes_of(r.val_ab@)));
    let (x, y) = choose|x: ManifestEntry, y: ManifestEntry|
        {
            &&& describes(x, r.a, r.b, r.val_ab@, s)
            &&& describes(y, r.b, r.a, r.val_ba@, t)
            &&& e.entries == #[trigger] with_pair(d.entries, r, x, y)
        };
    let one = upserted(d.entries, x);
    upsert_then_find(d.entries, x, r.a as int, r.b as int);
    upsert_then_find(one, y, r.a as int, r.b as int);
    upsert_then_find(one, y, r.b as int, r.a as int);
    assert forall|w: int, b: int| !of_pair((r.a, r.b), w, b) implies #[trigger] lookup(e.entries, w, b) == lookup(
        d.entries,
        w,
        b,
    ) by {
        upsert_then_find(d.entries, x, w, b);
        upsert_then_find(one, y, w, b);
    }
    if listed_once(d.entries) {
        lemma_upserted_once(d.entries, x);
        lemma_upserted_once(one, y);
    }
}

/// A step makes its pair done, and keeps done what was.
proof fn lemma_step(d: Disk, e: Disk, p: (usize, usize))
    requires
        is_pair(p),
        d.step(e, p),
    ensures
        e.done(p),
        forall|q: (usize, usize)| is_pair(q) && #[trigger] d.done(q) ==> e.done(q),
{
    if !d.done(p) {
        let r = choose|r: PairResult|
            {
                &&& r.a == p.0
                &&& r.b == p.1
                &&& r.a == r.b ==> r.val_ab@ == r.val_ba@
                &&& r.val_ab@.len() == slots(SubspaceId { w: r.a as u8, b: r.b as u8 })
                &&& r.val_ba@.len() == slots(SubspaceId { w: r.b as u8, b: r.a as u8 })
                &&& #[trigger] d.written(e, r)
            };
        lemma_written(d, e, r);
        assert((r.a, r.b) == p);
        assert forall|q: (usize, usize)| is_pair(q) && #[trigger] d.done(q) implies e.done(q) by {
            if q != p {
                assert(!of_pair(p, q.0 as int, q.1 as int));
                assert(!of_pair(p, q.1 as int, q.0 as int));
                assert(e.file(q.0, q.1) == d.file(q.0, q.1));
                assert(e.file(q.1, q.0) == d.file(q.1, q.0));
            }
        }
    }
}

/// After a run every pair of it is done, whatever was there before.
pub proof fn runs_leave_every_pair_done(trace: Seq<Disk>, pairs: Seq<(usize, usize)>, i: int, j: int)
    requires
        is_run(trace, pairs),
        forall|k: int| 0 <= k < pairs.len() ==> is_pair(#[trigger] pairs[k]),
        0 <= i < j <= pairs.len(),
    ensures
        trace[j].done(pairs[i]),
    decreases j,
{
    assert(trace[j - 1].step(trace[j - 1 + 1], pairs[j - 1]));
    assert(is_pair(pairs[j - 1]) && is_pair(pairs[i]));
    lemma_step(trace[j - 1], trace[j], pairs[j - 1]);
    if i < j - 1 {
        runs_leave_every_pair_done(trace, pairs, i, j - 1);
    }
}

/// A run on a directory in which every pair is done changes nothing.
pub proof fn finished_runs_change_nothing(trace: Seq<Disk>, pairs: Seq<(usize, usize)>, j: int)
    requires
        is_run(trace, pairs),
        forall|i: int| 0 <= i < pairs.len() ==> trace[0].done(#[trigger] pairs[i]),
        0 <= j <= pairs.len(),
    ensures
        trace[j] == trace[0],
    decreases j,
{
    if j > 0 {
        finished_runs_change_nothing(trace, pairs, j - 1);
        assert(trace[j - 1].step(trace[j - 1 + 1], pairs[j - 1]));
        assert(trace[0].done(pairs[j - 1]));
    }
}

/// A second run over the same pairs changes nothing.
pub proof fn second_runs_change_nothing(first: Seq<Disk>, second: Seq<Disk>, limit: Option<usize>, pairs: Seq<(usize, usize)>)
    requires
        in_order(limit, pairs),
        is_run(first, pairs),
        is_run(second, pairs),
        second[0] == first.last(),
    ensures
        second.last() == first.last(),
{
    assert forall|i: int| 0 <= i < pairs.len() implies second[0].done(#[trigger] pairs[i]) by {
        runs_leave_every_pair_done(first, pairs, i, pairs.len() as int);
    }
    finished_runs_change_nothing(second, pairs, pairs.len() as int);
}

/// One of the first `n` pairs has the subspace.
pub open spec fn among(pairs: Seq<(usize, usize)>, n: int, w: int, b: int) -> bool {
    exists|i: int| 0 <= i < n && of_pair(#[trigger] pairs[i], w, b)
}

/// The subspace is listed with as many values as it has slots.
pub open spec fn full(d: Disk, w: int, b: int) -> bool {
    lookup(d.entries, w, b) matches Some(x) && x.size == slots(SubspaceId { w: w as u8, b: b as u8 })
}

/// A fresh run lists, up to each pair, the subspaces of the pairs so far.
proof fn lemma_fresh(trace: Seq<Disk>, limit: Option<usize>, pairs: Seq<(usize, usize)>, n: int)
    requires
        in_order(limit, pairs),
        is_run(trace, pairs),
        trace[0].entries.len() == 0,
        0 <= n <= pairs.len(),
    ensures
        listed_once(trace[n].entries),
        forall|w: int, b: int| #[trigger] lookup(trace[n].entries, w, b) is Some <==> among(pairs, n, w, b),
        forall|w: int, b: int| among(pairs, n, w, b) ==> #[trigger] full(trace[n], w, b),
    decreases n,
{
    if n > 0 {
        lemma_fresh(trace, limit, pairs, n - 1);
        let (d, e, p) = (trace[n - 1], trace[n], pairs[n - 1]);
        assert(trace[n - 1].step(trace[n - 1 + 1], pairs[n - 1]));
        assert(is_pair(p));
        if among(pairs, n - 1, p.0 as int, p.1 as int) {
            let i = choose|i: int| 0 <= i < n - 1 && of_pair(#[trigger] pairs[i], p.0 as int, p.1 as int);
            assert(is_pair(pairs[i]));
            assert(pair_before(pairs[i], pairs[n - 1]));
        }
        assert(lookup(d.entries, p.0 as int, p.1 as int) is None);
        assert(!d.done(p));
        let r = choose|r: PairResult|
            {
                &&& r.a == p.0
                &&& r.b == p.1
                &&& r.a == r.b ==> r.val_ab@ == r.val_ba@
                &&& r.val_ab@.len() == slots(SubspaceId { w: r.a as u8, b: r.b as u8 })
                &&& r.val_ba@.len() == slots(SubspaceId { w: r.b as u8, b: r.a as u8 })
                &&& #[trigger] d.written(e, r)
            };
        lemma_written(d, e, r);
        assert((r.a, r.b) == p);
        assert forall|w: int, b: int| among(pairs, n, w, b) <==> among(pairs, n - 1, w, b) || of_pair(p, w, b) by {
            if among(pairs, n, w, b) {
                let i = choose|i: int| 0 <= i < n && of_pair(#[trigger] pairs[i], w, b);
                assert(i == n - 1 || among(pairs, n - 1, w, b));
            }
            if among(pairs, n - 1, w, b) {
                let i = choose|i: int| 0 <= i < n - 1 && of_pair(#[trigger] pairs[i], w, b);
                assert(of_pair(pairs[i], w, b));
            }
            if of_pair(p, w, b) {
                assert(of_pair(pairs[n - 1], w, b));
            }
        }
        assert forall|w: int, b: int| #[trigger] lookup(e.entries, w, b) is Some <==> among(pairs, n, w, b) by {
            if !of_pair(p, w, b) {
                assert(lookup(e.entries, w, b) == lookup(d.entries, w, b));
            }
        }
        assert forall|w: int, b: int| among(pairs, n, w, b) implies #[trigger] full(e, w, b) by {
            if !of_pair(p, w, b) {
                assert(lookup(e.entries, w, b) == lookup(d.entries, w, b));
                assert(full(d, w, b));
            }
        }
    }
}

/// A run on an empty manifest leaves exactly the subspaces within the limit,
/// each listed once, with a file that agrees with its entry and holds a value
/// for each slot.
pub proof fn fresh_runs_fill_the_limit(trace: Seq<Disk>, limit: Option<usize>, pairs: Seq<(usize, usize)>, w: usize, b: usize)
    requires
        in_order(limit, pairs),
        is_run(trace, pairs),
        trace[0].entries.len() == 0,
    ensures
        listed_once(trace.last().entries),
        lookup(trace.last().entries, w as int, b as int) is Some <==> stones(w as int) && stones(b as int) && within(
            limit,
            (w, b),
        ),
        lookup(trace.last().entries, w as int, b as int) is Some ==> trace.last().has(w, b) && full(
            trace.last(),
            w as int,
            b as int,
        ),
{
    let n = pairs.len() as int;
    lemma_fresh(trace, limit, pairs, n);
    if among(pairs, n, w as int, b as int) {
        let i = choose|i: int| 0 <= i < n && of_pair(#[trigger] pairs[i], w as int, b as int);
        assert(is_pair(pairs[i]) && within(limit, pairs[i]));
        runs_leave_every_pair_done(trace, pairs, i, n);
        assert(full(trace[n], w as int, b as int));
    }
    if stones(w as int) && stones(b as int) && within(limit, (w, b)) {
        let p = if w <= b {
            (w, b)
        } else {
            (b, w)
        };
        assert(is_pair(p) && within(limit, p));
        assert(pairs.contains(p));
        let i = pairs.index_of(p);
        assert(of_pair(pairs[i], w as int, b as int));
    }
}

} // verus!
