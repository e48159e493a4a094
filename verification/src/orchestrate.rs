//! The walk over the 28 material pairs, from the fewest stones up. Each pair is
//! solved on its at most two direct dependencies, and the manifest records what
//! is done, so a run that was broken off can be continued.

use vstd::prelude::*;

use crate::database::{decode, Database, DRAW};
use crate::game::{in_pair, lemma_pair_closed, Score};
use crate::index::{is_pair, pair_before, slots, solve_order, stones, SubspaceId};
use crate::mask::count;
use crate::movegen::succs;
use crate::persist::{
    bytes_of, checksum, contents, is_solved, lookup, new_entry, solved, upsert_then_find, upserted,
    written_values_read_back, Manifest, ManifestEntry,
};
use crate::pos::Position;
use crate::retro::{dependencies_met, pair_solved, solve_pair, DepthOverflow, PairResult};
use crate::truth::{solved_pairs_are_true, true_values, truthful};
use crate::verify::{chosen_below, lemma_chosen_step, PairVerifyReport};

verus! {

/// The pair has no more stones than the limit.
pub open spec fn within(limit: Option<usize>, p: (usize, usize)) -> bool {
    match limit {
        Some(n) => p.0 + p.1 <= n,
        None => true,
    }
}

/// `pairs` are the pairs within the limit, in the order of solving.
pub open spec fn in_order(limit: Option<usize>, pairs: Seq<(usize, usize)>) -> bool {
    &&& forall|i: int| 0 <= i < pairs.len() ==> is_pair(#[trigger] pairs[i]) && within(limit, pairs[i])
    &&& forall|p: (usize, usize)| is_pair(p) && within(limit, p) ==> #[trigger] pairs.contains(p)
    &&& forall|i: int, j: int| 0 <= i < j < pairs.len() ==> pair_before(#[trigger] pairs[i], #[trigger] pairs[j])
}

/// The pairs to solve: all, or those whose combined stone count is at or below
/// a limit.
pub fn pairs_to_solve(max_total: Option<usize>) -> (pairs: Vec<(usize, usize)>)
    ensures
        in_order(max_total, pairs@),
{
    let all: Vec<(usize, usize)> = solve_order();
    let mut pairs: Vec<(usize, usize)> = Vec::new();
    let mut i: usize = 0;
    while i < all.len()
        invariant
            i <= all.len(),
            pairs@ == all@.take(i as int),
            forall|k: int| 0 <= k < all.len() ==> is_pair(#[trigger] all[k]),
            forall|p: (usize, usize)| is_pair(p) ==> #[trigger] all@.contains(p),
            forall|k: int, j: int| 0 <= k < j < all.len() ==> pair_before(#[trigger] all[k], #[trigger] all[j]),
            forall|k: int| 0 <= k < i ==> within(max_total, #[trigger] all[k]),
        decreases all.len() - i,
    {
        let (a, b) = all[i];
        assert(is_pair(all[i as int]));
        if let Some(limit) = max_total {
            if a + b > limit {
                assert forall|p: (usize, usize)| is_pair(p) && within(max_total, p) implies #[trigger] pairs@.contains(p) by {
                    assert(all@.contains(p));
                    let k = all@.index_of(p);
                    if k > i {
                        assert(pair_before(all[i as int], all[k]));
                    }
                    assert(pairs@[k] == p);
                }
                return pairs;
            }
        }
        pairs.push((a, b));
        assert(pairs@ =~= all@.take(i + 1));
        i = i + 1;
    }
    assert(all@.take(i as int) =~= all@);
    pairs
}

/// The subspaces that captures from the pair `{a, b}` lead to: `(b - 1, a)` by
/// a capture from `(a, b)`, and `(a - 1, b)` by one from `(b, a)`. Neither is
/// there when the side would drop below three stones.
pub open spec fn dependency_list(a: int, b: int) -> Seq<(usize, usize)> {
    (if b >= 4 {
        seq![((b - 1) as usize, a as usize)]
    } else {
        Seq::empty()
    }) + (if a >= 4 {
        seq![((a - 1) as usize, b as usize)]
    } else {
        Seq::empty()
    })
}

/// The subspaces to load before the pair `{a, b}` is solved.
pub fn dependencies(a: usize, b: usize) -> (deps: Vec<(usize, usize)>)
    ensures
        deps@ == dependency_list(a as int, b as int),
{
    let mut deps: Vec<(usize, usize)> = Vec::new();
    if b >= 4 {
        deps.push((b - 1, a));
    }
    if a >= 4 {
        deps.push((a - 1, b));
    }
    assert(deps@ =~= dependency_list(a as int, b as int));
    deps
}

/// Every dependency of a pair belongs to a pair that comes earlier in the
/// order, so it is solved by then.
pub proof fn dependencies_come_first(limit: Option<usize>, pairs: Seq<(usize, usize)>, i: int, k: int)
    requires
        in_order(limit, pairs),
        0 <= i < pairs.len(),
        0 <= k < dependency_list(pairs[i].0 as int, pairs[i].1 as int).len(),
    ensures
        ({
            let (w, b) = dependency_list(pairs[i].0 as int, pairs[i].1 as int)[k];
            exists|j: int| 0 <= j < i && (#[trigger] pairs[j] == (w, b) || pairs[j] == (b, w))
        }),
{
    let (w, b) = dependency_list(pairs[i].0 as int, pairs[i].1 as int)[k];
    assert(is_pair(pairs[i]) && within(limit, pairs[i]));
    let p = if w <= b {
        (w, b)
    } else {
        (b, w)
    };
    assert(is_pair(p) && within(limit, p));
    assert(pairs.contains(p));
    let j = pairs.index_of(p);
    if j > i {
        assert(pair_before(pairs[i], pairs[j]));
    }
    assert(pairs[j] == p);
}

/// What is registered once the values of the first `n` dependencies are in.
pub open spec fn registered(deps: Seq<(usize, usize)>, values: Seq<Vec<u16>>, n: int) -> Map<(u8, u8), Seq<u16>>
    decreases n,
{
    if n <= 0 {
        Map::empty()
    } else {
        registered(deps, values, n - 1).insert((deps[n - 1].0 as u8, deps[n - 1].1 as u8), values[n - 1]@)
    }
}

/// The dependencies of the pair `{a, b}` have all their values.
pub open spec fn supplied(a: int, b: int, values: Seq<Vec<u16>>) -> bool {
    &&& values.len() == dependency_list(a, b).len()
    &&& forall|k: int|
        0 <= k < values.len() ==> {
            let (w, b) = dependency_list(a, b)[k];
            slots(SubspaceId { w: w as u8, b: b as u8 }) <= (#[trigger] values[k]).len()
        }
}

/// A database of the dependencies of the pair `{a, b}`, whose values are given
/// in the order of `dependencies`.
pub fn register(a: usize, b: usize, values: Vec<Vec<u16>>) -> (db: Database)
    requires
        stones(a as int),
        stones(b as int),
        supplied(a as int, b as int, values@),
    ensures
        db@ == registered(dependency_list(a as int, b as int), values@, values.len() as int),
        dependencies_met(a as nat, b as nat, &db),
{
    let deps: Vec<(usize, usize)> = dependencies(a, b);
    let mut db = Database::new();
    let ghost all = values@;
    let mut rest: Vec<Vec<u16>> = values;
    let mut n: usize = 0;
    while n < deps.len()
        invariant
            n <= deps.len(),
            all.len() == deps.len(),
            rest@ == all.skip(n as int),
            db@ == registered(deps@, all, n as int),
        decreases deps.len() - n,
    {
        let (w, b) = deps[n];
        assert(all.skip(n as int)[0] == all[n as int]);
        let vals: Vec<u16> = rest.remove(0);
        assert(rest@ =~= all.skip(n + 1));
        db.insert(w, b, vals);
        n = n + 1;
    }
    proof {
        reveal_with_fuel(registered, 3);
        if b >= 4 {
            assert(all[0] == values@[0]);
        }
    }
    db
}

/// Solve the pair `{a, b}` on the values of its dependencies, given in the order
/// of `dependencies`. On true values of the dependencies the values of the pair
/// are true.
pub fn solve_on(a: usize, b: usize, values: Vec<Vec<u16>>) -> (r: Result<PairResult, DepthOverflow>)
    requires
        stones(a as int),
        stones(b as int),
        supplied(a as int, b as int, values@),
        slots(SubspaceId { w: a as u8, b: b as u8 }) + slots(SubspaceId { w: b as u8, b: a as u8 }) <= usize::MAX,
    ensures
        exists|db: Database|
            {
                &&& #[trigger] db@ == registered(dependency_list(a as int, b as int), values@, values.len() as int)
                &&& pair_solved(r, a, b, |s: Position| db.worth(s))
            },
        (forall|k: int|
            0 <= k < values.len() ==> {
                let (w, b) = dependency_list(a as int, b as int)[k];
                true_values(SubspaceId { w: w as u8, b: b as u8 }, (#[trigger] values[k])@)
            }) ==> (r matches Ok(p) ==> {
            &&& true_values(SubspaceId { w: a as u8, b: b as u8 }, p.val_ab@)
            &&& true_values(SubspaceId { w: b as u8, b: a as u8 }, p.val_ba@)
        }),
{
    let ghost all = values@;
    let db = register(a, b, values);
    proof {
        reveal_with_fuel(registered, 3);
    }
    let r = solve_pair(a, b, &db);
    proof {
        if (forall|k: int|
            0 <= k < all.len() ==> {
                let (w, b) = dependency_list(a as int, b as int)[k];
                true_values(SubspaceId { w: w as u8, b: b as u8 }, (#[trigger] all[k])@)
            }) && r is Ok {
            assert(b > 3 ==> truthful(&db, (b - 1) as nat, a as nat));
            assert(a > 3 ==> truthful(&db, (a - 1) as nat, b as nat));
            let p = r->Ok_0;
            solved_pairs_are_true(a as nat, b as nat, &db, SubspaceId { w: a as u8, b: b as u8 }, p.val_ab@);
            solved_pairs_are_true(a as nat, b as nat, &db, SubspaceId { w: b as u8, b: a as u8 }, p.val_ba@);
        }
    }
    r
}

/// Both subspaces of a pair are solved.
pub open spec fn done(
    entries: Seq<ManifestEntry>,
    p: (usize, usize),
    file_ab: Option<Seq<u8>>,
    file_ba: Option<Seq<u8>>,
) -> bool {
    &&& solved(entries, p.0 as int, p.1 as int, file_ab)
    &&& p.0 != p.1 ==> solved(entries, p.1 as int, p.0 as int, file_ba)
}

/// The entry describes the values of subspace `(w, b)`.
pub open spec fn describes(e: ManifestEntry, w: usize, b: usize, values: Seq<u16>, time: u64) -> bool {
    &&& e.w == w as u8
    &&& e.b == b as u8
    &&& e.size == values.len()
    &&& e.xxh3@ == checksum(bytes_of(values))
    &&& e.solved_at_unix == time
}

/// The entries after those for the subspaces of a pair were put in.
pub open spec fn with_pair(before: Seq<ManifestEntry>, p: PairResult, e: ManifestEntry, f: ManifestEntry) -> Seq<ManifestEntry> {
    if p.a == p.b {
        upserted(before, e)
    } else {
        upserted(upserted(before, e), f)
    }
}

/// `after` holds, on top of `before`, the entries of a solved pair.
pub open spec fn recorded(
    before: Seq<ManifestEntry>,
    after: Seq<ManifestEntry>,
    p: PairResult,
    time_ab: u64,
    time_ba: u64,
) -> bool {
    exists|e: ManifestEntry, f: ManifestEntry|
        {
            &&& describes(e, p.a, p.b, p.val_ab@, time_ab)
            &&& describes(f, p.b, p.a, p.val_ba@, time_ba)
            &&& after == #[trigger] with_pair(before, p, e, f)
        }
}

/// A run over the pairs: the manifest so far, and the pairs that are left.
pub struct Run {
    manifest: Manifest,
    pairs: Vec<(usize, usize)>,
}

impl Run {
    /// The entries of the manifest.
    pub closed spec fn entries(&self) -> Seq<ManifestEntry> {
        self.manifest.entries@
    }

    /// The pairs that are left, the current one first.
    pub closed spec fn left(&self) -> Seq<(usize, usize)> {
        self.pairs@
    }

    /// Starts with the given manifest. With `max_total` the run stops at the
    /// first pair whose combined stone count is above it.
    pub fn new(manifest: Manifest, max_total: Option<usize>) -> (run: Run)
        ensures
            run.entries() == manifest.entries@,
            in_order(max_total, run.left()),
    {
        Run { manifest, pairs: pairs_to_solve(max_total) }
    }

    pub fn manifest(&self) -> (m: &Manifest)
        ensures
            m.entries@ == self.entries(),
    {
        &self.manifest
    }

    /// The pair that is up, until all are through.
    pub fn current(&self) -> (p: Option<(usize, usize)>)
        ensures
            p == (if self.left().len() == 0 {
                None
            } else {
                Some(self.left()[0])
            }),
    {
        if self.pairs.len() > 0 {
            Some(self.pairs[0])
        } else {
            None
        }
    }

    /// Goes past the current pair if its value files are there and agree with the
    /// manifest, and says so.
    pub fn skip_if_done(&mut self, file_ab: Option<&[u8]>, file_ba: Option<&[u8]>) -> (r: bool)
        requires
            old(self).left().len() > 0,
        ensures
            r == done(old(self).entries(), old(self).left()[0], contents(file_ab), contents(file_ba)),
            final(self).entries() == old(self).entries(),
            final(self).left() == (if r {
                old(self).left().drop_first()
            } else {
                old(self).left()
            }),
    {
        let (a, b) = self.pairs[0];
        let all: bool = is_solved(&self.manifest, a, b, file_ab) && (a == b || is_solved(&self.manifest, b, a, file_ba));
        if all {
            let _ = self.pairs.remove(0);
            assert(self.left() =~= old(self).left().drop_first());
        }
        all
    }

    /// Enters the values of the current pair in the manifest and goes on.
    pub fn record(&mut self, result: &PairResult, time_ab: u64, time_ba: u64)
        requires
            old(self).left().len() > 0,
            old(self).left()[0] == (result.a, result.b),
        ensures
            recorded(old(self).entries(), final(self).entries(), *result, time_ab, time_ba),
            final(self).left() == old(self).left().drop_first(),
    {
        let ghost before = self.entries();
        let e: ManifestEntry = new_entry(result.a, result.b, &result.val_ab, time_ab);
        let f: ManifestEntry = new_entry(result.b, result.a, &result.val_ba, time_ba);
        let ghost (x, y) = (e, f);
        self.manifest.upsert(e);
        if result.a != result.b {
            self.manifest.upsert(f);
        }
        let _ = self.pairs.remove(0);
        proof {
            assert(self.left() =~= old(self).left().drop_first());
            assert(self.entries() == with_pair(before, *result, x, y));
        }
    }
}

/// A pair that was recorded, with its files written, is not solved again.
pub proof fn recorded_pairs_are_done(
    before: Seq<ManifestEntry>,
    after: Seq<ManifestEntry>,
    p: PairResult,
    time_ab: u64,
    time_ba: u64,
)
    requires
        p.a <= 255,
        p.b <= 255,
        recorded(before, after, p, time_ab, time_ba),
    ensures
        done(after, (p.a, p.b), Some(bytes_of(p.val_ab@)), Some(bytes_of(p.val_ba@))),
{
    let (e, f) = choose|e: ManifestEntry, f: ManifestEntry|
        {
            &&& describes(e, p.a, p.b, p.val_ab@, time_ab)
            &&& describes(f, p.b, p.a, p.val_ba@, time_ba)
            &&& after == #[trigger] with_pair(before, p, e, f)
        };
    let one = upserted(before, e);
    upsert_then_find(before, e, p.a as int, p.b as int);
    upsert_then_find(one, f, p.a as int, p.b as int);
    upsert_then_find(one, f, p.b as int, p.a as int);
    written_values_read_back(e, p.val_ab@);
    written_values_read_back(f, p.val_ba@);
}

/// A scan over the solved pairs, in the order of solving: the pairs that are
/// left, and what was found so far.
pub struct Scan {
    pairs: Vec<(usize, usize)>,
    reports: Vec<PairVerifyReport>,
}

impl Scan {
    /// The pairs that are left, the current one first.
    pub closed spec fn left(&self) -> Seq<(usize, usize)> {
        self.pairs@
    }

    /// The reports on the pairs that were verified.
    pub closed spec fn found(&self) -> Seq<PairVerifyReport> {
        self.reports@
    }

    pub fn new() -> (scan: Scan)
        ensures
            in_order(None, scan.left()),
            scan.found() == Seq::<PairVerifyReport>::empty(),
    {
        Scan { pairs: pairs_to_solve(None), reports: Vec::new() }
    }

    /// The pair that is up, until the scan is at its end.
    pub fn current(&self) -> (p: Option<(usize, usize)>)
        ensures
            p == (if self.left().len() == 0 {
                None
            } else {
                Some(self.left()[0])
            }),
    {
        if self.pairs.len() > 0 {
            Some(self.pairs[0])
        } else {
            None
        }
    }

    /// Ends the scan if the current pair is not solved: no later one can be.
    /// Says whether it goes on.
    pub fn go_on_if_done(&mut self, manifest: &Manifest, file_ab: Option<&[u8]>, file_ba: Option<&[u8]>) -> (r: bool)
        requires
            old(self).left().len() > 0,
        ensures
            r == done(manifest.entries@, old(self).left()[0], contents(file_ab), contents(file_ba)),
            final(self).found() == old(self).found(),
            final(self).left() == (if r {
                old(self).left()
            } else {
                Seq::empty()
            }),
    {
        let (a, b) = self.pairs[0];
        let all: bool = is_solved(manifest, a, b, file_ab) && (a == b || is_solved(manifest, b, a, file_ba));
        if !all {
            self.pairs = Vec::new();
        }
        all
    }

    /// Takes the report on the current pair, and ends the scan at the first
    /// inconsistency: later pairs rest on this one.
    pub fn add_report(&mut self, report: PairVerifyReport)
        requires
            old(self).left().len() > 0,
        ensures
            final(self).found() == old(self).found().push(report),
            final(self).left() == (if report.mismatches@.len() == 0 {
                old(self).left().drop_first()
            } else {
                Seq::empty()
            }),
    {
        let ok: bool = report.ok();
        self.reports.push(report);
        if ok {
            let _ = self.pairs.remove(0);
            assert(self.pairs@ =~= old(self).left().drop_first());
        } else {
            self.pairs = Vec::new();
        }
    }

    pub fn reports(self) -> (r: Vec<PairVerifyReport>)
        ensures
            r@ == self.found(),
    {
        self.reports
    }
}

/// How many of the first `n` values have the outcome.
pub open spec fn outcomes(values: Seq<u16>, outcome: spec_fn(Score) -> bool, n: int) -> nat
    decreases n,
{
    if n <= 0 {
        0
    } else if outcome(decode(values[n - 1])) {
        outcomes(values, outcome, n - 1) + 1
    } else {
        outcomes(values, outcome, n - 1)
    }
}

/// The numbers of wins, losses and draws among the values.
pub fn tally(values: &Vec<u16>) -> (t: (u64, u64, u64))
    ensures
        t.0 == outcomes(values@, |r: Score| r is Win, values.len() as int),
        t.1 == outcomes(values@, |r: Score| r is Loss, values.len() as int),
        t.2 == outcomes(values@, |r: Score| r is Draw, values.len() as int),
        t.0 + t.1 + t.2 == values.len(),
{
    let mut wins: u64 = 0;
    let mut losses: u64 = 0;
    let mut draws: u64 = 0;
    let mut i: usize = 0;
    while i < values.len()
        invariant
            i <= values.len(),
            wins == outcomes(values@, |r: Score| r is Win, i as int),
            losses == outcomes(values@, |r: Score| r is Loss, i as int),
            draws == outcomes(values@, |r: Score| r is Draw, i as int),
            wins + losses + draws == i,
        decreases values.len() - i,
    {
        let v: u16 = values[i];
        if v == DRAW {
            draws = draws + 1;
        } else if v % 2 == 0 {
            losses = losses + 1;
        } else {
            wins = wins + 1;
        }
        i = i + 1;
    }
    (wins, losses, draws)
}

/// The wins, the losses and the draws are the numbers of values that are odd codes, even
/// codes, and the draw code.
pub proof fn tallies_count_the_values(values: Seq<u16>, n: int)
    requires
        0 <= n <= values.len(),
    ensures
        outcomes(values, |r: Score| r is Win, n) == chosen_below(n, |i: int| values[i] != 0xffff && values[i] % 2 == 1).len(),
        outcomes(values, |r: Score| r is Loss, n) == chosen_below(n, |i: int| values[i] != 0xffff && values[i] % 2 == 0).len(),
        outcomes(values, |r: Score| r is Draw, n) == chosen_below(n, |i: int| values[i] == 0xffff).len(),
    decreases n,
{
    let win = |i: int| values[i] != 0xffff && values[i] % 2 == 1;
    let loss = |i: int| values[i] != 0xffff && values[i] % 2 == 0;
    let draw = |i: int| values[i] == 0xffff;
    if n > 0 {
        tallies_count_the_values(values, n - 1);
        lemma_chosen_step(n - 1, win);
        lemma_chosen_step(n - 1, loss);
        lemma_chosen_step(n - 1, draw);
    } else {
        lemma_chosen_step(0, win);
        lemma_chosen_step(0, loss);
        lemma_chosen_step(0, draw);
    }
}

/// The dependencies of a pair are where its captures lead: whatever a move from a
/// position of the pair takes, the subspace it leads to is listed, unless a side is left
/// with fewer than three stones. Nothing else is listed.
pub proof fn dependencies_are_where_captures_lead(a: usize, b: usize, p: Position, s: Position, k: int)
    requires
        stones(a as int),
        stones(b as int),
        in_pair(a as nat, b as nat, p),
        succs(p).contains(s),
        0 <= k < dependency_list(a as int, b as int).len(),
    ensures
        count(s.w()) + count(s.b()) < a + b && count(s.w()) >= 3 ==> dependency_list(a as int, b as int).contains(
            (count(s.w()) as usize, count(s.b()) as usize),
        ),
        ({
            let (w, v) = dependency_list(a as int, b as int)[k];
            &&& 3 <= w <= 9 && 3 <= v <= 9
            &&& w + 1 == b && v == a || w + 1 == a && v == b
        }),
{
    lemma_pair_closed(a as nat, b as nat, p, s);
    let l = dependency_list(a as int, b as int);
    if count(s.w()) + count(s.b()) < a + b && count(s.w()) >= 3 {
        let t = (count(s.w()) as usize, count(s.b()) as usize);
        if t == ((b - 1) as usize, a) {
            assert(l[0] == t);
        } else {
            assert(l[l.len() - 1] == t);
        }
    }
}

/// What is entered for a solved pair is found again, for both its subspaces, with the
/// number of its values, their checksum, and the time.
pub proof fn recorded_entries_are_found(
    before: Seq<ManifestEntry>,
    after: Seq<ManifestEntry>,
    p: PairResult,
    time_ab: u64,
    time_ba: u64,
    w: int,
    b: int,
)
    requires
        p.a <= 255,
        p.b <= 255,
        recorded(before, after, p, time_ab, time_ba),
    ensures
        lookup(after, p.a as int, p.b as int) matches Some(e) && e.size == p.val_ab@.len() && e.xxh3@ == checksum(
            bytes_of(p.val_ab@),
        ) && e.solved_at_unix == time_ab,
        p.a != p.b ==> (lookup(after, p.b as int, p.a as int) matches Some(e) && e.size == p.val_ba@.len() && e.xxh3@
            == checksum(bytes_of(p.val_ba@)) && e.solved_at_unix == time_ba),
        !(w == p.a && b == p.b) && !(w == p.b && b == p.a) ==> lookup(after, w, b) == lookup(before, w, b),
{
    let (e, f) = choose|e: ManifestEntry, f: ManifestEntry|
        {
            &&& describes(e, p.a, p.b, p.val_ab@, time_ab)
            &&& describes(f, p.b, p.a, p.val_ba@, time_ba)
            &&& after == #[trigger] with_pair(before, p, e, f)
        };
    let one = upserted(before, e);
    upsert_then_find(before, e, p.a as int, p.b as int);
    upsert_then_find(one, f, p.a as int, p.b as int);
    upsert_then_find(one, f, p.b as int, p.a as int);
    upsert_then_find(before, e, w, b);
    upsert_then_find(one, f, w, b);
}

/// The pairs to solve are the splits of 3 to 9 stones a side, the smaller side first, with
/// no more stones than the limit; each comes once, those with fewer stones first.
pub proof fn pairs_are_those_within_the_limit(limit: Option<usize>, pairs: Seq<(usize, usize)>, a: usize, b: usize, i: int, j: int)
    requires
        in_order(limit, pairs),
        0 <= i < j < pairs.len(),
    ensures
        pairs.contains((a, b)) <==> 3 <= a <= b <= 9 && match limit {
            Some(n) => a + b <= n,
            None => true,
        },
        pairs[i].0 + pairs[i].1 <= pairs[j].0 + pairs[j].1,
        pairs[i] != pairs[j],
{
    assert(pair_before(pairs[i], pairs[j]));
    if pairs.contains((a, b)) {
        let k = pairs.index_of((a, b));
        assert(is_pair(pairs[k]) && within(limit, pairs[k]));
    }
}

/// The values that are supplied for the dependencies are what is registered for them.
pub proof fn supplied_values_are_registered(a: usize, b: usize, values: Seq<Vec<u16>>, k: int)
    requires
        stones(a as int),
        stones(b as int),
        supplied(a as int, b as int, values),
        0 <= k < values.len(),
        a != b || k == values.len() - 1,
    ensures
        ({
            let (w, v) = dependency_list(a as int, b as int)[k];
            let m = registered(dependency_list(a as int, b as int), values, values.len() as int);
            m.contains_key((w as u8, v as u8)) && m[(w as u8, v as u8)] == values[k]@
        }),
{
    reveal_with_fuel(registered, 3);
}

/// A pair is done exactly when the files of both its subspaces are there, listed, of the
/// right length, and with the right checksum.
pub proof fn done_pairs_have_both_files(
    entries: Seq<ManifestEntry>,
    a: usize,
    b: usize,
    file_ab: Option<Seq<u8>>,
    file_ba: Option<Seq<u8>>,
)
    ensures
        ({
            let good = |w: int, v: int, file: Option<Seq<u8>>| {
                &&& lookup(entries, w, v) is Some
                &&& file is Some
                &&& file->0.len() == 2 * lookup(entries, w, v)->0.size
                &&& checksum(file->0) == lookup(entries, w, v)->0.xxh3@
            };
            done(entries, (a, b), file_ab, file_ba) <==> good(a as int, b as int, file_ab) && (a == b || good(
                b as int,
                a as int,
                file_ba,
            ))
        }),
{
}

} // verus!
