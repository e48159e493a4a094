//! Forward-consistency verification.
//!
//! Independent of the propagation that produces the values: for every stored
//! state the value is worked out afresh from the stored values of its
//! successors, in one pass, and compared. Values that pass everywhere are the
//! true ones (see `consistent_values_are_true`).

use vstd::prelude::*;

use crate::database::{decode, Database, DRAW};
use crate::game::{
    consistent_values_are_true, depth, in_pair, lemma_minimax_image, lemma_minimax_total, lemma_pair_closed,
    minimax, minimax_is_functional, reply, score, scores_are_consistent, settles, total, Score,
};
use crate::index::{
    canonical_slot, canonical_slots_round_trip, index, is_canonical_slot, lemma_slot_pos, playable, slot_of,
    slot_pos, slots, slots_are_symmetry_invariant, slots_hold_canonical_forms, stones, subspace_of, unindex,
    IndexTables, SubspaceId,
};
use crate::mask::count;
use crate::movegen::{moves_movement, succs};
use crate::par::par_map;
use crate::pos::Position;
use crate::retro::{dependencies_met, solves};
use crate::symmetry::{canon, canon_sym, image_pos, inverse, lemma_from_canon, lemma_image_pos};
use crate::truth::lemma_minimax_agrees;

verus! {

/// A slot whose stored value is not what its successors make of it.
#[derive(Clone, Copy, Debug, PartialEq, Eq, Structural)]
pub struct Mismatch {
    pub idx: u64,
    pub stored: u16,
    pub expected: u16,
}

/// The outcome of verifying one pair.
pub struct PairVerifyReport {
    pub a: usize,
    pub b: usize,
    pub checked: u64,
    pub mismatches: Vec<Mismatch>,
}

impl PairVerifyReport {
    pub fn ok(&self) -> (r: bool)
        ensures
            r == (self.mismatches@.len() == 0),
    {
        self.mismatches.len() == 0
    }
}

/// The code of a worth. Depth 65535, which no code can hold, comes out as the
/// draw code.
pub open spec fn encode(r: Score) -> int {
    match r {
        Score::Win(d) => d as int,
        Score::Loss(d) => d as int,
        Score::Draw => DRAW as int,
    }
}

/// The worth that the array of the sibling subspace gives to a position.
pub open spec fn worth_at(values: Seq<u16>, p: Position) -> Score {
    decode(values[slot_of(p) as int])
}

/// The worth of the successors of `pos` as stored: in `db` after a capture,
/// in `other` after a quiet move.
pub open spec fn stored_worth(pos: Position, other: Seq<u16>, db: &Database) -> spec_fn(Position) -> Score {
    |s: Position| reply(|q: Position| db.worth(q), |q: Position| worth_at(other, q), pos, s)
}

/// `code` is what the stored values of the successors make of `pos`.
pub open spec fn expects(pos: Position, other: Seq<u16>, db: &Database, code: u16) -> bool {
    exists|r: Score| #[trigger] minimax(pos, stored_worth(pos, other, db), r) && code == encode(r)
}

/// The stored worths can be looked up: `other` has a slot for every quiet
/// successor, and `db` covers every capture that leaves three stones.
pub open spec fn stored(sub: SubspaceId, other: Seq<u16>, db: &Database) -> bool {
    &&& sub.wf()
    &&& slots(SubspaceId { w: sub.b, b: sub.w }) <= other.len()
    &&& sub.b > 3 ==> db.covers((sub.b - 1) as nat, sub.w as nat)
}

/// Work out the value of a state from the stored values of its successors:
/// `other` is the sibling subspace in the same pair, where quiet moves lead,
/// and `db` holds the smaller pairs, where captures lead.
pub fn expected_value(pos: Position, other: &Vec<u16>, db: &Database) -> (code: u16)
    requires
        playable(pos),
        stored(subspace_of(pos), other@, db),
    ensures
        expects(pos, other@, db, code),
{
    let successors: Vec<Position> = moves_movement(pos.white(), pos.black());
    let ghost worth = stored_worth(pos, other@, db);
    if successors.len() == 0 {
        assert(minimax(pos, worth, Score::Loss(0)));
        return 0;
    }
    let here: u32 = pos.white_count() + pos.black_count();
    let mut best: Option<u16> = None;
    let mut slowest: u16 = 0;
    let mut all_win: bool = true;
    let mut i: usize = 0;
    while i < successors.len()
        invariant
            i <= successors.len(),
            successors@ == succs(pos),
            here == total(pos),
            playable(pos),
            stored(subspace_of(pos), other@, db),
            worth == stored_worth(pos, other@, db),
            match best {
                Some(d) => {
                    &&& d > 0
                    &&& exists|k: int| 0 <= k < i && worth(#[trigger] successors@[k]) == Score::Loss((d - 1) as nat)
                    &&& forall|k: int|
                        0 <= k < i && worth(#[trigger] successors@[k]) is Loss ==> d - 1 <= worth(successors@[k])->Loss_0
                },
                None => forall|k: int| 0 <= k < i ==> !(worth(#[trigger] successors@[k]) is Loss),
            },
            slowest < 0xffff,
            all_win ==> forall|k: int|
                0 <= k < i ==> worth(#[trigger] successors@[k]) is Win || worth(successors@[k]) is Loss,
            !all_win ==> exists|k: int| 0 <= k < i && worth(#[trigger] successors@[k]) is Draw,
            forall|k: int| 0 <= k < i && worth(#[trigger] successors@[k]) is Win ==> worth(successors@[k])->Win_0 <= slowest,
            slowest != 0 ==> exists|k: int| 0 <= k < i && worth(#[trigger] successors@[k]) == Score::Win(slowest as nat),
        decreases successors.len() - i,
    {
        let s: Position = successors[i];
        proof {
            assert(succs(pos).contains(s));
            lemma_pair_closed(count(pos.w()), count(pos.b()), pos, s);
        }
        let code: u16 = if s.white_count() < 3 {
            0
        } else if s.white_count() + s.black_count() < here {
            db.lookup_pos(s)
        } else {
            proof {
                slots_hold_canonical_forms(s);
            }
            let (_, idx) = index(db.tables(), s);
            assert(other.len() <= usize::MAX);
            other[idx as usize]
        };
        assert(worth(successors@[i as int]) == decode(code));
        if code == DRAW {
            all_win = false;
        } else if code % 2 == 0 {
            let d: u16 = code + 1;
            best = match best {
                None => Some(d),
                Some(e) => Some(if d < e { d } else { e }),
            };
        } else if code > slowest {
            slowest = code;
        }
        i = i + 1;
    }
    proof {
        assert forall|t: Position| #[trigger] succs(pos).contains(t) implies exists|k: int|
            0 <= k < successors.len() && #[trigger] successors@[k] == t by {}
    }
    match best {
        Some(d) => {
            proof {
                let k = choose|k: int| 0 <= k < i && worth(#[trigger] successors@[k]) == Score::Loss((d - 1) as nat);
                assert(succs(pos).contains(successors@[k]) && worth(successors@[k]) == Score::Loss((d - 1) as nat));
                assert forall|t: Position| succs(pos).contains(t) && (#[trigger] worth(t)) is Loss implies d - 1 <= worth(t)->Loss_0 by {
                    let k = choose|k: int| 0 <= k < successors.len() && #[trigger] successors@[k] == t;
                    assert(worth(successors@[k]) is Loss);
                }
                assert(minimax(pos, worth, Score::Win(d as nat)));
            }
            d
        },
        None => {
            if all_win {
                proof {
                    assert(succs(pos).contains(successors@[0]) && worth(successors@[0]) is Win);
                    assert(worth(successors@[0])->Win_0 != 0);
                    let k = choose|k: int| 0 <= k < i && worth(#[trigger] successors@[k]) == Score::Win(slowest as nat);
                    assert(succs(pos).contains(successors@[k]) && worth(successors@[k]) == Score::Win(slowest as nat));
                    assert forall|t: Position| succs(pos).contains(t) implies (#[trigger] worth(t)) is Win && worth(t)->Win_0
                        <= slowest by {
                        let k = choose|k: int| 0 <= k < successors.len() && #[trigger] successors@[k] == t;
                        assert(worth(successors@[k]) is Win);
                    }
                    assert(minimax(pos, worth, Score::Loss((slowest + 1) as nat)));
                }
                slowest + 1
            } else {
                proof {
                    let k = choose|k: int| 0 <= k < i && worth(#[trigger] successors@[k]) is Draw;
                    assert(succs(pos).contains(successors@[k]) && worth(successors@[k]) is Draw);
                    assert forall|t: Position| succs(pos).contains(t) implies !((#[trigger] worth(t)) is Loss) by {
                        let k = choose|k: int| 0 <= k < successors.len() && #[trigger] successors@[k] == t;
                        assert(!(worth(successors@[k]) is Loss));
                    }
                    assert(minimax(pos, worth, Score::Draw));
                }
                DRAW
            }
        },
    }
}

/// The stored values make one thing of a position only.
proof fn lemma_expects_unique(pos: Position, other: Seq<u16>, db: &Database, c: u16, d: u16)
    requires
        expects(pos, other, db, c),
        expects(pos, other, db, d),
    ensures
        c == d,
{
    let worth = stored_worth(pos, other, db);
    let r = choose|r: Score| #[trigger] minimax(pos, worth, r) && c == encode(r);
    let q = choose|r: Score| #[trigger] minimax(pos, worth, r) && d == encode(r);
    minimax_is_functional(pos, worth, r, q);
}

/// The code that the stored values of the successors make of `pos`.
pub open spec fn expected_code(pos: Position, other: Seq<u16>, db: &Database) -> u16 {
    choose|c: u16| expects(pos, other, db, c)
}

/// The number of canonical slots below `n`.
pub open spec fn canonical_below(sub: SubspaceId, n: int) -> nat
    decreases n,
{
    if n <= 0 {
        0
    } else if canonical_slot(sub, (n - 1) as nat) {
        canonical_below(sub, n - 1) + 1
    } else {
        canonical_below(sub, n - 1)
    }
}

/// The mismatches in the canonical slots below `n`.
pub open spec fn mismatches_below(sub: SubspaceId, own: Seq<u16>, other: Seq<u16>, db: &Database, n: int) -> Seq<Mismatch>
    decreases n,
{
    if n <= 0 {
        Seq::empty()
    } else {
        let before = mismatches_below(sub, own, other, db, n - 1);
        let expected = expected_code(slot_pos(sub, (n - 1) as nat), other, db);
        if canonical_slot(sub, (n - 1) as nat) && own[n - 1] != expected {
            before.push(Mismatch { idx: (n - 1) as u64, stored: own[n - 1], expected })
        } else {
            before
        }
    }
}

/// The code to expect in slot `idx`, or nothing for a wasted slot.
fn expected_at(sub: SubspaceId, other: &Vec<u16>, db: &Database, idx: u64) -> (r: Option<u16>)
    requires
        stored(sub, other@, db),
        idx < slots(sub),
    ensures
        match r {
            Some(code) => canonical_slot(sub, idx as nat) && code == expected_code(slot_pos(sub, idx as nat), other@, db),
            None => !canonical_slot(sub, idx as nat),
        },
{
    if !is_canonical_slot(db.tables(), sub, idx) {
        return None;
    }
    let pos: Position = unindex(db.tables(), sub, idx);
    let code: u16 = expected_value(pos, other, db);
    proof {
        lemma_expects_unique(pos, other@, db, code, expected_code(pos, other@, db));
    }
    Some(code)
}

/// How many slots are handed out to the threads at a time.
const CHUNK: usize = 0x1_0000;

/// Check the values `own` of subspace `sub` slot by slot. Returns the number
/// of states checked, and the mismatches.
pub fn verify_side(sub: SubspaceId, own: &Vec<u16>, other: &Vec<u16>, db: &Database) -> (r: (u64, Vec<Mismatch>))
    requires
        stored(sub, other@, db),
        own.len() <= slots(sub),
    ensures
        r.0 == canonical_below(sub, own.len() as int),
        r.1@ == mismatches_below(sub, own@, other@, db, own.len() as int),
{
    let mut checked: u64 = 0;
    let mut mismatches: Vec<Mismatch> = Vec::new();
    let len: usize = own.len();
    let mut base: usize = 0;
    while base < len
        invariant
            base <= len,
            len == own.len(),
            stored(sub, other@, db),
            own.len() <= slots(sub),
            checked == canonical_below(sub, base as int),
            checked <= base,
            mismatches@ == mismatches_below(sub, own@, other@, db, base as int),
        decreases len - base,
    {
        let n: usize = if len - base < CHUNK {
            len - base
        } else {
            CHUNK
        };
        let expect = |i: usize| -> (r: Option<u16>)
            requires
                (n > i),
            ensures
                (match r {
                    Some(code) => canonical_slot(sub, (base + i) as nat) && code == expected_code(
                        slot_pos(sub, (base + i) as nat),
                        other@,
                        db,
                    ),
                    None => !canonical_slot(sub, (base + i) as nat),
                }),
        {
            expected_at(sub, other, db, (base + i) as u64)
        };
        let codes: Vec<Option<u16>> = par_map(n, expect);
        let mut i: usize = 0;
        while i < n
            invariant
                i <= n,
                n == codes.len(),
                base + n <= len,
                len == own.len(),
                checked == canonical_below(sub, base + i),
                checked <= base + i,
                mismatches@ == mismatches_below(sub, own@, other@, db, base + i),
                forall|k: usize| k < n ==> match #[trigger] codes[k as int] {
                    Some(code) => canonical_slot(sub, (base + k) as nat) && code == expected_code(
                        slot_pos(sub, (base + k) as nat),
                        other@,
                        db,
                    ),
                    None => !canonical_slot(sub, (base + k) as nat),
                },
            decreases n - i,
        {
            let idx: usize = base + i;
            if let Some(expected) = codes[i] {
                checked = checked + 1;
                let stored: u16 = own[idx];
                if stored != expected {
                    mismatches.push(Mismatch { idx: idx as u64, stored, expected });
                }
            }
            i = i + 1;
        }
        base = base + n;
    }
    (checked, mismatches)
}

/// The mismatches of both sides of a pair.
pub open spec fn pair_mismatches(a: nat, b: nat, val_ab: Seq<u16>, val_ba: Seq<u16>, db: &Database) -> Seq<Mismatch> {
    let (ab, ba) = (SubspaceId { w: a as u8, b: b as u8 }, SubspaceId { w: b as u8, b: a as u8 });
    let first = mismatches_below(ab, val_ab, val_ba, db, val_ab.len() as int);
    if a == b {
        first
    } else {
        first + mismatches_below(ba, val_ba, val_ab, db, val_ba.len() as int)
    }
}

/// Verify the unordered pair `{a, b}`, given the values of both its subspaces
/// and a registry with its dependencies. At most 50 mismatches are reported;
/// the number of states checked is that of the whole scan.
pub fn verify_pair(a: usize, b: usize, val_ab: &Vec<u16>, val_ba: &Vec<u16>, db: &Database) -> (report: PairVerifyReport)
    requires
        stones(a as int),
        stones(b as int),
        dependencies_met(a as nat, b as nat, db),
        val_ab.len() == slots(SubspaceId { w: a as u8, b: b as u8 }),
        val_ba.len() == slots(SubspaceId { w: b as u8, b: a as u8 }),
    ensures
        report.a == a,
        report.b == b,
        report.checked == canonical_below(SubspaceId { w: a as u8, b: b as u8 }, val_ab.len() as int) + if a == b {
            0
        } else {
            canonical_below(SubspaceId { w: b as u8, b: a as u8 }, val_ba.len() as int)
        },
        ({
            let all = pair_mismatches(a as nat, b as nat, val_ab@, val_ba@, db);
            report.mismatches@ == if all.len() > 50 {
                all.take(50)
            } else {
                all
            }
        }),
{
    let ab = SubspaceId::new(a, b);
    let ba = SubspaceId::new(b, a);
    proof {
        lemma_canonical_below_le(ab, val_ab.len() as int);
        lemma_canonical_below_le(ba, val_ba.len() as int);
        crate::index::lemma_slots_small(ab);
        crate::index::lemma_slots_small(ba);
    }
    let (c1, mut mismatches): (u64, Vec<Mismatch>) = verify_side(ab, val_ab, val_ba, db);
    let mut checked: u64 = c1;
    if a != b {
        let (c2, mut more): (u64, Vec<Mismatch>) = verify_side(ba, val_ba, val_ab, db);
        checked = checked + c2;
        mismatches.append(&mut more);
    }
    let ghost all = mismatches@;
    assert(all =~= pair_mismatches(a as nat, b as nat, val_ab@, val_ba@, db));
    mismatches.truncate(50);
    proof {
        assert(all.len() > 50 ==> all.subrange(0, 50) =~= all.take(50));
        assert(all.len() == 50 ==> all.subrange(0, 50) =~= all);
    }
    PairVerifyReport { a, b, checked, mismatches }
}

proof fn lemma_canonical_below_le(sub: SubspaceId, n: int)
    requires
        0 <= n,
    ensures
        canonical_below(sub, n) <= n,
    decreases n,
{
    if n > 0 {
        lemma_canonical_below_le(sub, n - 1);
    }
}

/// Without mismatches every canonical slot holds what is expected, and the
/// other way round.
proof fn lemma_no_mismatches(sub: SubspaceId, own: Seq<u16>, other: Seq<u16>, db: &Database, n: int)
    requires
        0 <= n,
    ensures
        mismatches_below(sub, own, other, db, n).len() == 0 <==> forall|i: int|
            0 <= i < n && #[trigger] canonical_slot(sub, i as nat) ==> own[i] == expected_code(
                slot_pos(sub, i as nat),
                other,
                db,
            ),
    decreases n,
{
    if n > 0 {
        lemma_no_mismatches(sub, own, other, db, n - 1);
        if mismatches_below(sub, own, other, db, n).len() == 0 {
            assert forall|i: int| 0 <= i < n && #[trigger] canonical_slot(sub, i as nat) implies own[i] == expected_code(
                slot_pos(sub, i as nat),
                other,
                db,
            ) by {
                if i == n - 1 {
                    assert(canonical_slot(sub, (n - 1) as nat));
                }
            }
        } else if mismatches_below(sub, own, other, db, n - 1).len() == 0 {
            assert(canonical_slot(sub, (n - 1) as nat) && own[n - 1] != expected_code(
                slot_pos(sub, (n - 1) as nat),
                other,
                db,
            ));
        } else {
            let i = choose|i: int|
                0 <= i < n - 1 && #[trigger] canonical_slot(sub, i as nat) && own[i] != expected_code(
                    slot_pos(sub, i as nat),
                    other,
                    db,
                );
            assert(canonical_slot(sub, i as nat));
        }
    }
}

/// Some worth follows from the worths of the successors.
proof fn lemma_expected_exists(pos: Position, other: Seq<u16>, db: &Database, r: Score)
    requires
        minimax(pos, stored_worth(pos, other, db), r),
        encode(r) <= 0xffff,
    ensures
        expects(pos, other, db, encode(r) as u16),
        expected_code(pos, other, db) == encode(r),
{
    assert(expects(pos, other, db, encode(r) as u16));
    lemma_expects_unique(pos, other, db, encode(r) as u16, expected_code(pos, other, db));
}

/// The worth that the arrays of a pair give to its positions.
pub open spec fn pair_worth(a: nat, val_ab: Seq<u16>, val_ba: Seq<u16>, p: Position) -> Score {
    if count(p.w()) == a {
        worth_at(val_ab, p)
    } else {
        worth_at(val_ba, p)
    }
}

/// The code 65534 stands nowhere among the stored values that matter to the
/// pair: a win through it would take 65535 plies, which no code can hold.
pub open spec fn no_code_at_limit(a: nat, b: nat, val_ab: Seq<u16>, val_ba: Seq<u16>, db: &Database) -> bool {
    &&& forall|i: int| 0 <= i < val_ab.len() ==> #[trigger] val_ab[i] != 0xfffe
    &&& forall|i: int| 0 <= i < val_ba.len() ==> #[trigger] val_ba[i] != 0xfffe
    &&& forall|p: Position, s: Position|
        in_pair(a, b, p) && #[trigger] succs(p).contains(s) && total(s) < total(p) ==> db.code(s) != 0xfffe
}

/// The arrays of a pair, sized as its subspaces are.
pub open spec fn pair_arrays(a: nat, b: nat, val_ab: Seq<u16>, val_ba: Seq<u16>) -> bool {
    &&& stones(a as int)
    &&& stones(b as int)
    &&& val_ab.len() == slots(SubspaceId { w: a as u8, b: b as u8 })
    &&& val_ba.len() == slots(SubspaceId { w: b as u8, b: a as u8 })
    &&& a == b ==> val_ab == val_ba
}

/// What decoded worths of successors make of a position decodes from its code.
proof fn lemma_code_round_trip(pos: Position, worth: spec_fn(Position) -> Score, r: Score)
    requires
        minimax(pos, worth, r),
        forall|s: Position| #[trigger] succs(pos).contains(s) ==> match worth(s) {
            Score::Win(d) => d % 2 == 1 && d < 0xffff,
            Score::Loss(d) => d % 2 == 0 && d < 0xfffe,
            Score::Draw => true,
        },
    ensures
        encode(r) <= 0xffff,
        decode(encode(r) as u16) == r,
{
    match r {
        Score::Win(d) => {
            let s = choose|s: Position| succs(pos).contains(s) && #[trigger] worth(s) == Score::Loss((d - 1) as nat);
            assert(succs(pos).contains(s));
        },
        Score::Loss(d) => {
            if succs(pos).len() > 0 {
                let s = choose|s: Position| succs(pos).contains(s) && #[trigger] worth(s) == Score::Win((d - 1) as nat);
                assert(succs(pos).contains(s));
            }
        },
        Score::Draw => {},
    }
}

/// The worths stored for the successors of a position of the pair are those
/// that the arrays and the registry give.
proof fn lemma_stored_worth(a: nat, b: nat, val_ab: Seq<u16>, val_ba: Seq<u16>, db: &Database, p: Position, s: Position)
    requires
        pair_arrays(a, b, val_ab, val_ba),
        in_pair(a, b, p),
        succs(p).contains(s),
    ensures
        ({
            let other = if count(p.w()) == a {
                val_ba
            } else {
                val_ab
            };
            reply(|q: Position| db.worth(q), |q: Position| pair_worth(a, val_ab, val_ba, q), p, s) == stored_worth(
                p,
                other,
                db,
            )(s)
        }),
{
    lemma_pair_closed(a, b, p, s);
}

/// The parity of stored worths.
proof fn lemma_stored_parity(a: nat, b: nat, val_ab: Seq<u16>, val_ba: Seq<u16>, db: &Database, p: Position, s: Position)
    requires
        pair_arrays(a, b, val_ab, val_ba),
        no_code_at_limit(a, b, val_ab, val_ba, db),
        in_pair(a, b, p),
        succs(p).contains(s),
    ensures
        match reply(|q: Position| db.worth(q), |q: Position| pair_worth(a, val_ab, val_ba, q), p, s) {
            Score::Win(d) => d % 2 == 1 && d < 0xffff,
            Score::Loss(d) => d % 2 == 0 && d < 0xfffe,
            Score::Draw => true,
        },
{
    lemma_pair_closed(a, b, p, s);
    if count(s.w()) >= 3 && total(s) == total(p) {
        slots_hold_canonical_forms(s);
        if count(s.w()) == a {
            assert(val_ab[slot_of(s) as int] != 0xfffe);
        } else {
            assert(val_ba[slot_of(s) as int] != 0xfffe);
        }
    }
}

/// A canonical slot without mismatch settles its position.
proof fn lemma_slot_settles(a: nat, b: nat, val_ab: Seq<u16>, val_ba: Seq<u16>, db: &Database, p: Position)
    requires
        pair_arrays(a, b, val_ab, val_ba),
        dependencies_met(a, b, db),
        no_code_at_limit(a, b, val_ab, val_ba, db),
        pair_mismatches(a, b, val_ab, val_ba, db).len() == 0,
        in_pair(a, b, p),
        canon(p) == p,
    ensures
        minimax(
            p,
            |s: Position| reply(|q: Position| db.worth(q), |q: Position| pair_worth(a, val_ab, val_ba, q), p, s),
            pair_worth(a, val_ab, val_ba, p),
        ),
{
    let (ab, ba) = (SubspaceId { w: a as u8, b: b as u8 }, SubspaceId { w: b as u8, b: a as u8 });
    let sub = subspace_of(p);
    let i = slot_of(p) as int;
    let (own, other) = if count(p.w()) == a {
        (val_ab, val_ba)
    } else {
        (val_ba, val_ab)
    };
    slots_hold_canonical_forms(p);
    lemma_no_mismatches(ab, val_ab, val_ba, db, val_ab.len() as int);
    lemma_no_mismatches(ba, val_ba, val_ab, db, val_ba.len() as int);
    assert(canonical_slot(sub, i as nat));
    assert(own[i] == expected_code(p, other, db));
    let worth = |s: Position| reply(|q: Position| db.worth(q), |q: Position| pair_worth(a, val_ab, val_ba, q), p, s);
    let seen = stored_worth(p, other, db);
    assert forall|s: Position| #[trigger] succs(p).contains(s) implies worth(s) == seen(s) by {
        lemma_stored_worth(a, b, val_ab, val_ba, db, p, s);
    }
    let r = lemma_minimax_total(p, worth);
    assert forall|s: Position| #[trigger] succs(p).contains(s) implies match worth(s) {
        Score::Win(d) => d % 2 == 1 && d < 0xffff,
        Score::Loss(d) => d % 2 == 0 && d < 0xfffe,
        Score::Draw => true,
    } by {
        lemma_stored_parity(a, b, val_ab, val_ba, db, p, s);
    }
    lemma_code_round_trip(p, worth, r);
    lemma_minimax_agrees(p, worth, seen, r);
    lemma_expected_exists(p, other, db, r);
}

/// Verification is sound: values of a pair that show no mismatch are the true
/// ones, for every position of the pair.
pub proof fn verified_values_are_true(
    a: nat,
    b: nat,
    val_ab: Seq<u16>,
    val_ba: Seq<u16>,
    db: &Database,
    p: Position,
)
    requires
        pair_arrays(a, b, val_ab, val_ba),
        dependencies_met(a, b, db),
        no_code_at_limit(a, b, val_ab, val_ba, db),
        pair_mismatches(a, b, val_ab, val_ba, db).len() == 0,
        in_pair(a, b, p),
    ensures
        pair_worth(a, val_ab, val_ba, p) == score(|s: Position| db.worth(s), p),
{
    let smaller = |q: Position| db.worth(q);
    let here = |q: Position| pair_worth(a, val_ab, val_ba, q);
    assert forall|q: Position| #[trigger] in_pair(a, b, q) implies minimax(
        q,
        |s: Position| reply(smaller, here, q, s),
        here(q),
    ) by {
        let c = canon(q);
        let g = inverse(canon_sym(q));
        crate::symmetry::canonical_form_is_idempotent(q);
        lemma_from_canon(q);
        lemma_slot_settles(a, b, val_ab, val_ba, db, c);
        let worth_c = |s: Position| reply(smaller, here, c, s);
        let worth_q = |s: Position| reply(smaller, here, q, s);
        assert forall|s: Position| #[trigger] succs(c).contains(s) implies worth_c(s) == worth_q(image_pos(g, s)) by {
            lemma_pair_closed(a, b, c, s);
            lemma_image_pos(g, s);
            slots_are_symmetry_invariant(g, s);
        }
        lemma_minimax_image(g, c, worth_c, worth_q, here(c));
        slots_are_symmetry_invariant(g, c);
    }
    assert(settles(a, b, smaller, here));
    consistent_values_are_true(a, b, smaller, here, p);
}

/// Verification is complete: the values that the solver returns show no
/// mismatch.
pub proof fn solved_values_verify(a: nat, b: nat, val_ab: Seq<u16>, val_ba: Seq<u16>, db: &Database)
    requires
        pair_arrays(a, b, val_ab, val_ba),
        solves(|s: Position| db.worth(s), SubspaceId { w: a as u8, b: b as u8 }, val_ab),
        solves(|s: Position| db.worth(s), SubspaceId { w: b as u8, b: a as u8 }, val_ba),
    ensures
        pair_mismatches(a, b, val_ab, val_ba, db).len() == 0,
{
    let (ab, ba) = (SubspaceId { w: a as u8, b: b as u8 }, SubspaceId { w: b as u8, b: a as u8 });
    lemma_side_verifies(a, b, ab, val_ab, val_ba, db);
    lemma_side_verifies(b, a, ba, val_ba, val_ab, db);
}

proof fn lemma_side_verifies(w: nat, b: nat, sub: SubspaceId, own: Seq<u16>, other: Seq<u16>, db: &Database)
    requires
        stones(w as int),
        stones(b as int),
        sub == (SubspaceId { w: w as u8, b: b as u8 }),
        solves(|s: Position| db.worth(s), sub, own),
        solves(|s: Position| db.worth(s), SubspaceId { w: b as u8, b: w as u8 }, other),
    ensures
        mismatches_below(sub, own, other, db, own.len() as int).len() == 0,
{
    let smaller = |s: Position| db.worth(s);
    assert forall|i: int| 0 <= i < own.len() && #[trigger] canonical_slot(sub, i as nat) implies own[i] == expected_code(
        slot_pos(sub, i as nat),
        other,
        db,
    ) by {
        let p = slot_pos(sub, i as nat);
        lemma_slot_pos(sub, i as nat);
        assert(decode(own[i]) == score(smaller, p));
        scores_are_consistent(w, b, smaller, p);
        let truth = |s: Position| reply(smaller, |q: Position| score(smaller, q), p, s);
        let seen = stored_worth(p, other, db);
        assert forall|s: Position| #[trigger] succs(p).contains(s) implies truth(s) == seen(s) by {
            lemma_pair_closed(w, b, p, s);
            if count(s.w()) >= 3 && total(s) == total(p) {
                crate::retro::solved_values_cover_all_positions(
                    w,
                    b,
                    db,
                    SubspaceId { w: b as u8, b: w as u8 },
                    other,
                    s,
                );
            }
        }
        lemma_minimax_agrees(p, truth, seen, score(smaller, p));
        lemma_expected_exists(p, other, db, score(smaller, p));
    }
    lemma_no_mismatches(sub, own, other, db, own.len() as int);
}

/// Win, loss and draw tallies of a subspace, with the deepest win and loss.
#[derive(Clone, Copy, Debug, PartialEq, Eq, Structural)]
pub struct Tally {
    pub wins: u64,
    pub losses: u64,
    pub draws: u64,
    pub max_win_depth: u16,
    pub max_loss_depth: u16,
}

/// The number of canonical slots below `n` whose code has the given outcome.
pub open spec fn outcomes_below(sub: SubspaceId, values: Seq<u16>, outcome: spec_fn(Score) -> bool, n: int) -> nat
    decreases n,
{
    if n <= 0 {
        0
    } else if canonical_slot(sub, (n - 1) as nat) && outcome(decode(values[n - 1])) {
        outcomes_below(sub, values, outcome, n - 1) + 1
    } else {
        outcomes_below(sub, values, outcome, n - 1)
    }
}

/// The greatest code of the given outcome in a canonical slot below `n`.
pub open spec fn deepest_below(sub: SubspaceId, values: Seq<u16>, outcome: spec_fn(Score) -> bool, n: int) -> u16
    decreases n,
{
    if n <= 0 {
        0
    } else {
        let before = deepest_below(sub, values, outcome, n - 1);
        if canonical_slot(sub, (n - 1) as nat) && outcome(decode(values[n - 1])) && before < values[n - 1] {
            values[n - 1]
        } else {
            before
        }
    }
}

/// Tally over the canonical slots only: the wasted ones hold the draw code for
/// good, and to count them would inflate the draws.
pub fn tally(tables: &IndexTables, sub: SubspaceId, values: &Vec<u16>) -> (t: Tally)
    requires
        sub.wf(),
        values.len() <= slots(sub),
    ensures
        t.wins == outcomes_below(sub, values@, |r: Score| r is Win, values.len() as int),
        t.losses == outcomes_below(sub, values@, |r: Score| r is Loss, values.len() as int),
        t.draws == outcomes_below(sub, values@, |r: Score| r is Draw, values.len() as int),
        t.max_win_depth == deepest_below(sub, values@, |r: Score| r is Win, values.len() as int),
        t.max_loss_depth == deepest_below(sub, values@, |r: Score| r is Loss, values.len() as int),
        t.wins + t.losses + t.draws == canonical_below(sub, values.len() as int),
{
    let mut t = Tally { wins: 0, losses: 0, draws: 0, max_win_depth: 0, max_loss_depth: 0 };
    let ghost (win, loss, draw) = (|r: Score| r is Win, |r: Score| r is Loss, |r: Score| r is Draw);
    let mut i: usize = 0;
    while i < values.len()
        invariant
            i <= values.len(),
            sub.wf(),
            values.len() <= slots(sub),
            win == (|r: Score| r is Win),
            loss == (|r: Score| r is Loss),
            draw == (|r: Score| r is Draw),
            t.wins == outcomes_below(sub, values@, win, i as int),
            t.losses == outcomes_below(sub, values@, loss, i as int),
            t.draws == outcomes_below(sub, values@, draw, i as int),
            t.max_win_depth == deepest_below(sub, values@, win, i as int),
            t.max_loss_depth == deepest_below(sub, values@, loss, i as int),
            t.wins + t.losses + t.draws == canonical_below(sub, i as int),
            t.wins + t.losses + t.draws <= i,
        decreases values.len() - i,
    {
        if is_canonical_slot(tables, sub, i as u64) {
            let v: u16 = values[i];
            if v == DRAW {
                t.draws = t.draws + 1;
            } else if v % 2 == 0 {
                t.losses = t.losses + 1;
                if t.max_loss_depth < v {
                    t.max_loss_depth = v;
                }
            } else {
                t.wins = t.wins + 1;
                if t.max_win_depth < v {
                    t.max_win_depth = v;
                }
            }
        }
        i = i + 1;
    }
    t
}

/// The retrograde engine and the oracle agree: over the same worths for
/// captures, the code stored for a position and the value found by scanning
/// forward are the same.
pub proof fn solvers_agree(
    a: nat,
    b: nat,
    db: &Database,
    sub: SubspaceId,
    vals: Seq<u16>,
    smaller: Map<u64, crate::oracle::Value>,
    values: Map<u64, crate::oracle::Value>,
    p: Position,
)
    requires
        stones(a as int),
        stones(b as int),
        in_pair(a, b, p),
        subspace_of(p) == sub,
        solves(|s: Position| db.worth(s), sub, vals),
        values[p.0]@ == score(|q: Position| crate::oracle::worth_in(smaller, q), p),
        forall|q: Position, s: Position|
            in_pair(a, b, q) && #[trigger] succs(q).contains(s) && total(s) < total(q) && count(s.w()) >= 3 ==> db.worth(s)
                == crate::oracle::worth_in(smaller, s),
    ensures
        decode(vals[slot_of(p) as int]) == values[p.0]@,
{
    crate::retro::solved_values_cover_all_positions(a, b, db, sub, vals, p);
    let f = |s: Position| db.worth(s);
    let g = |q: Position| crate::oracle::worth_in(smaller, q);
    let here = |q: Position| score(g, q);
    assert forall|q: Position| #[trigger] in_pair(a, b, q) implies minimax(q, |s: Position| reply(f, here, q, s), here(q)) by {
        scores_are_consistent(a, b, g, q);
        let one = |s: Position| reply(g, |r: Position| score(g, r), q, s);
        let two = |s: Position| reply(f, here, q, s);
        assert forall|s: Position| #[trigger] succs(q).contains(s) implies one(s) == two(s) by {}
        lemma_minimax_agrees(q, one, two, here(q));
    }
    assert(settles(a, b, f, here));
    consistent_values_are_true(a, b, f, here, p);
}

/// The two solvers agree on whole results: every canonical slot that the
/// retrograde engine fills holds what the oracle finds for its position.
pub proof fn solvers_agree_on_every_slot(
    a: nat,
    b: nat,
    db: &Database,
    sub: SubspaceId,
    vals: Seq<u16>,
    smaller: Map<u64, crate::oracle::Value>,
    values: Map<u64, crate::oracle::Value>,
    i: nat,
)
    requires
        stones(a as int),
        stones(b as int),
        sub == (SubspaceId { w: a as u8, b: b as u8 }) || sub == (SubspaceId { w: b as u8, b: a as u8 }),
        solves(|s: Position| db.worth(s), sub, vals),
        forall|p: Position| #[trigger]
            in_pair(a, b, p) ==> values[p.0]@ == score(|q: Position| crate::oracle::worth_in(smaller, q), p),
        forall|q: Position, s: Position|
            in_pair(a, b, q) && #[trigger] succs(q).contains(s) && total(s) < total(q) && count(s.w()) >= 3 ==> db.worth(s)
                == crate::oracle::worth_in(smaller, s),
        i < vals.len(),
        canonical_slot(sub, i),
    ensures
        decode(vals[i as int]) == values[slot_pos(sub, i).0]@,
{
    lemma_slot_pos(sub, i);
    let p = slot_pos(sub, i);
    assert(in_pair(a, b, p));
    solvers_agree(a, b, db, sub, vals, smaller, values, p);
    canonical_slots_round_trip(sub, i);
}

/// A list of whole numbers below `n`, as a set.
pub open spec fn chosen_below(n: int, pick: spec_fn(int) -> bool) -> Set<int> {
    Set::new(|i: int| 0 <= i < n && pick(i))
}

/// One more number is at most one more to choose.
pub proof fn lemma_chosen_step(n: int, pick: spec_fn(int) -> bool)
    requires
        0 <= n,
    ensures
        chosen_below(n, pick).finite(),
        chosen_below(n + 1, pick).len() == chosen_below(n, pick).len() + if pick(n) {
            1nat
        } else {
            0nat
        },
        chosen_below(0, pick).len() == 0,
    decreases n,
{
    let (s, t) = (chosen_below(n, pick), chosen_below(n + 1, pick));
    assert(chosen_below(0, pick) =~= Set::<int>::empty());
    if n > 0 {
        lemma_chosen_step(n - 1, pick);
        let r = chosen_below(n - 1, pick);
        if pick(n - 1) {
            assert(s =~= r.insert(n - 1));
        } else {
            assert(s =~= r);
        }
    }
    if pick(n) {
        assert(t =~= s.insert(n));
    } else {
        assert(t =~= s);
    }
}

/// The canonical slots are counted each once.
pub proof fn canonical_slots_are_counted(sub: SubspaceId, n: int)
    requires
        0 <= n,
    ensures
        canonical_below(sub, n) == chosen_below(n, |i: int| canonical_slot(sub, i as nat)).len(),
    decreases n,
{
    let pick = |i: int| canonical_slot(sub, i as nat);
    if n > 0 {
        canonical_slots_are_counted(sub, n - 1);
        lemma_chosen_step(n - 1, pick);
    } else {
        lemma_chosen_step(0, pick);
    }
}

/// Slot `i` of a subspace is to be checked and holds another code than its
/// successors make of it.
pub open spec fn wrong_slot(sub: SubspaceId, own: Seq<u16>, other: Seq<u16>, db: &Database, i: int) -> bool {
    &&& 0 <= i < own.len()
    &&& canonical_slot(sub, i as nat)
    &&& !expects(slot_pos(sub, i as nat), other, db, own[i])
}

/// The mismatch names a wrong slot, with what it holds and what it should.
pub open spec fn names_wrong_slot(sub: SubspaceId, own: Seq<u16>, other: Seq<u16>, db: &Database, m: Mismatch) -> bool {
    &&& wrong_slot(sub, own, other, db, m.idx as int)
    &&& m.stored == own[m.idx as int]
    &&& expects(slot_pos(sub, m.idx as nat), other, db, m.expected)
}

/// `l` names the wrong slots of a subspace, all of them and nothing else, in
/// ascending order.
pub open spec fn names_wrong_slots(sub: SubspaceId, own: Seq<u16>, other: Seq<u16>, db: &Database, l: Seq<Mismatch>) -> bool {
    &&& forall|k: int| 0 <= k < l.len() ==> names_wrong_slot(sub, own, other, db, #[trigger] l[k])
    &&& forall|i: int| #[trigger]
        wrong_slot(sub, own, other, db, i) ==> exists|k: int| 0 <= k < l.len() && (#[trigger] l[k]).idx == i
    &&& forall|j: int, k: int| 0 <= j < k < l.len() ==> (#[trigger] l[j]).idx < (#[trigger] l[k]).idx
    &&& l.len() == chosen_below(own.len() as int, |i: int| wrong_slot(sub, own, other, db, i)).len()
}

/// The codes to expect can be found wherever the stored worths can be looked up.
proof fn lemma_expected(sub: SubspaceId, other: Seq<u16>, db: &Database, i: nat)
    requires
        stored(sub, other, db),
        i < slots(sub),
    ensures
        expects(slot_pos(sub, i), other, db, expected_code(slot_pos(sub, i), other, db)),
{
    let p = slot_pos(sub, i);
    lemma_slot_pos(sub, i);
    let worth = stored_worth(p, other, db);
    let r = lemma_minimax_total(p, worth);
    assert forall|s: Position| #[trigger] succs(p).contains(s) implies depth(worth(s)) < 0xffff by {}
    match r {
        Score::Win(d) => {
            let s = choose|s: Position| succs(p).contains(s) && #[trigger] worth(s) == Score::Loss((d - 1) as nat);
            assert(depth(worth(s)) < 0xffff);
        },
        Score::Loss(d) => {
            if succs(p).len() > 0 {
                let s = choose|s: Position| succs(p).contains(s) && #[trigger] worth(s) == Score::Win((d - 1) as nat);
                assert(depth(worth(s)) < 0xffff);
            }
        },
        Score::Draw => {},
    }
    assert(encode(r) <= 0xffff);
    assert(expects(p, other, db, encode(r) as u16));
}

/// The scan of one side names its wrong slots.
pub proof fn scans_name_the_wrong_slots(sub: SubspaceId, own: Seq<u16>, other: Seq<u16>, db: &Database)
    requires
        stored(sub, other, db),
        own.len() <= slots(sub),
    ensures
        names_wrong_slots(sub, own, other, db, mismatches_below(sub, own, other, db, own.len() as int)),
{
    lemma_scan(sub, own, other, db, own.len() as int);
    let l = mismatches_below(sub, own, other, db, own.len() as int);
    assert forall|i: int| #[trigger] wrong_slot(sub, own, other, db, i) implies exists|k: int|
        0 <= k < l.len() && (#[trigger] l[k]).idx == i by {
        assert(i < own.len());
    }
}

proof fn lemma_scan(sub: SubspaceId, own: Seq<u16>, other: Seq<u16>, db: &Database, n: int)
    requires
        stored(sub, other, db),
        own.len() <= slots(sub),
        0 <= n <= own.len(),
    ensures
        ({
            let l = mismatches_below(sub, own, other, db, n);
            &&& forall|k: int| 0 <= k < l.len() ==> names_wrong_slot(sub, own, other, db, #[trigger] l[k]) && l[k].idx < n
            &&& forall|i: int| #[trigger]
                wrong_slot(sub, own, other, db, i) && i < n ==> exists|k: int|
                    0 <= k < l.len() && (#[trigger] l[k]).idx == i
            &&& forall|j: int, k: int| 0 <= j < k < l.len() ==> (#[trigger] l[j]).idx < (#[trigger] l[k]).idx
            &&& l.len() == chosen_below(n, |i: int| wrong_slot(sub, own, other, db, i)).len()
        }),
    decreases n,
{
    let pick = |i: int| wrong_slot(sub, own, other, db, i);
    if n == 0 {
        lemma_chosen_step(0, pick);
    } else {
        lemma_scan(sub, own, other, db, n - 1);
        lemma_chosen_step(n - 1, pick);
        crate::index::lemma_slots_small(sub);
        let (r, l) = (mismatches_below(sub, own, other, db, n - 1), mismatches_below(sub, own, other, db, n));
        let p = slot_pos(sub, (n - 1) as nat);
        let c = expected_code(p, other, db);
        lemma_expected(sub, other, db, (n - 1) as nat);
        if expects(p, other, db, own[n - 1]) {
            lemma_expects_unique(p, other, db, own[n - 1], c);
        }
        if wrong_slot(sub, own, other, db, n - 1) {
            let m = Mismatch { idx: (n - 1) as u64, stored: own[n - 1], expected: c };
            assert(own[n - 1] != c);
            assert(l == r.push(m));
            assert(names_wrong_slot(sub, own, other, db, m));
            assert forall|k: int| 0 <= k < l.len() implies names_wrong_slot(sub, own, other, db, #[trigger] l[k]) && l[k].idx < n by {
                if k < r.len() {
                    assert(l[k] == r[k]);
                }
            }
            assert forall|j: int, k: int| 0 <= j < k < l.len() implies (#[trigger] l[j]).idx < (#[trigger] l[k]).idx by {
                assert(l[j] == r[j]);
                if k < r.len() {
                    assert(l[k] == r[k]);
                }
            }
        } else {
            assert(l == r);
        }
        assert forall|i: int| #[trigger] wrong_slot(sub, own, other, db, i) && i < n implies exists|k: int|
            0 <= k < l.len() && (#[trigger] l[k]).idx == i by {
            if i < n - 1 {
                let k = choose|k: int| 0 <= k < r.len() && (#[trigger] r[k]).idx == i;
                assert(l[k] == r[k]);
            } else {
                assert(l[r.len() as int].idx == i);
            }
        }
    }
}

/// Verifying a pair names the wrong slots of both its sides: all those of
/// `(a, b)`, and then, unless the sides are one, all those of `(b, a)`. Nothing
/// else is named, and nothing twice.
pub proof fn pairs_name_the_wrong_slots_of_both_sides(
    a: nat,
    b: nat,
    val_ab: Seq<u16>,
    val_ba: Seq<u16>,
    db: &Database,
)
    requires
        stones(a as int),
        stones(b as int),
        dependencies_met(a, b, db),
        val_ab.len() == slots(SubspaceId { w: a as u8, b: b as u8 }),
        val_ba.len() == slots(SubspaceId { w: b as u8, b: a as u8 }),
    ensures
        ({
            let (ab, ba) = (SubspaceId { w: a as u8, b: b as u8 }, SubspaceId { w: b as u8, b: a as u8 });
            let l = pair_mismatches(a, b, val_ab, val_ba, db);
            let n = chosen_below(val_ab.len() as int, |i: int| wrong_slot(ab, val_ab, val_ba, db, i)).len() as int;
            let m = chosen_below(val_ba.len() as int, |i: int| wrong_slot(ba, val_ba, val_ab, db, i)).len() as int;
            &&& l.len() == if a == b {
                n
            } else {
                n + m
            }
            &&& names_wrong_slots(ab, val_ab, val_ba, db, l.take(n))
            &&& a != b ==> names_wrong_slots(ba, val_ba, val_ab, db, l.skip(n))
        }),
{
    let (ab, ba) = (SubspaceId { w: a as u8, b: b as u8 }, SubspaceId { w: b as u8, b: a as u8 });
    let l = pair_mismatches(a, b, val_ab, val_ba, db);
    scans_name_the_wrong_slots(ab, val_ab, val_ba, db);
    scans_name_the_wrong_slots(ba, val_ba, val_ab, db);
    let first = mismatches_below(ab, val_ab, val_ba, db, val_ab.len() as int);
    let second = mismatches_below(ba, val_ba, val_ab, db, val_ba.len() as int);
    assert(l.take(first.len() as int) =~= first);
    if a != b {
        assert(l.skip(first.len() as int) =~= second);
    }
}

/// The wins, the losses and the draws of a tally are the numbers of canonical
/// slots that hold an odd code, an even one, and the draw code.
pub proof fn tallies_count_the_slots(sub: SubspaceId, values: Seq<u16>, n: int)
    requires
        0 <= n <= values.len(),
    ensures
        outcomes_below(sub, values, |r: Score| r is Win, n) == chosen_below(
            n,
            |i: int| canonical_slot(sub, i as nat) && values[i] != 0xffff && values[i] % 2 == 1,
        ).len(),
        outcomes_below(sub, values, |r: Score| r is Loss, n) == chosen_below(
            n,
            |i: int| canonical_slot(sub, i as nat) && values[i] != 0xffff && values[i] % 2 == 0,
        ).len(),
        outcomes_below(sub, values, |r: Score| r is Draw, n) == chosen_below(
            n,
            |i: int| canonical_slot(sub, i as nat) && values[i] == 0xffff,
        ).len(),
    decreases n,
{
    let win = |i: int| canonical_slot(sub, i as nat) && values[i] != 0xffff && values[i] % 2 == 1;
    let loss = |i: int| canonical_slot(sub, i as nat) && values[i] != 0xffff && values[i] % 2 == 0;
    let draw = |i: int| canonical_slot(sub, i as nat) && values[i] == 0xffff;
    if n > 0 {
        tallies_count_the_slots(sub, values, n - 1);
        lemma_chosen_step(n - 1, win);
        lemma_chosen_step(n - 1, loss);
        lemma_chosen_step(n - 1, draw);
    } else {
        lemma_chosen_step(0, win);
        lemma_chosen_step(0, loss);
        lemma_chosen_step(0, draw);
    }
}

/// `d` is the greatest code with the given remainder by two that a canonical
/// slot below `n` holds, and 0 if none does. The draw code does not count.
pub open spec fn is_deepest(sub: SubspaceId, values: Seq<u16>, parity: int, n: int, d: int) -> bool {
    &&& forall|i: int|
        0 <= i < n && canonical_slot(sub, i as nat) && #[trigger] values[i] != 0xffff && values[i] % 2 == parity
            ==> values[i] <= d
    &&& d == 0 || exists|i: int|
        0 <= i < n && canonical_slot(sub, i as nat) && #[trigger] values[i] != 0xffff && values[i] % 2 == parity
            && values[i] == d
}

/// The depths of a tally are those of the deepest win and of the deepest loss.
pub proof fn tallies_give_the_greatest_depths(sub: SubspaceId, values: Seq<u16>, n: int)
    requires
        0 <= n <= values.len(),
    ensures
        is_deepest(sub, values, 1, n, deepest_below(sub, values, |r: Score| r is Win, n) as int),
        is_deepest(sub, values, 0, n, deepest_below(sub, values, |r: Score| r is Loss, n) as int),
    decreases n,
{
    let (win, loss) = (|r: Score| r is Win, |r: Score| r is Loss);
    if n > 0 {
        tallies_give_the_greatest_depths(sub, values, n - 1);
        lemma_deepest_step(sub, values, win, 1, n);
        lemma_deepest_step(sub, values, loss, 0, n);
    }
}

proof fn lemma_deepest_step(sub: SubspaceId, values: Seq<u16>, outcome: spec_fn(Score) -> bool, parity: int, n: int)
    requires
        0 < n <= values.len(),
        forall|c: u16| #[trigger] outcome(decode(c)) <==> c != 0xffff && c % 2 == parity,
        is_deepest(sub, values, parity, n - 1, deepest_below(sub, values, outcome, n - 1) as int),
    ensures
        is_deepest(sub, values, parity, n, deepest_below(sub, values, outcome, n) as int),
{
    let (d, e) = (deepest_below(sub, values, outcome, n - 1), deepest_below(sub, values, outcome, n));
    assert(outcome(decode(values[n - 1])) <==> values[n - 1] != 0xffff && values[n - 1] % 2 == parity);
    if e != 0 {
        if e == d {
            let i = choose|i: int|
                0 <= i < n - 1 && canonical_slot(sub, i as nat) && #[trigger] values[i] != 0xffff && values[i] % 2 == parity
                    && values[i] == d;
            assert(values[i] == e);
        } else {
            assert(values[n - 1] == e);
        }
    }
}

/// The code that is stored for a successor of `pos`: 0 where the side to move has
/// fewer than three stones, else that of the database after a capture, else that
/// of the sibling subspace.
pub open spec fn stored_code(pos: Position, other: Seq<u16>, db: &Database, s: Position) -> u16 {
    if count(s.w()) < 3 {
        0
    } else if count(s.w()) + count(s.b()) < count(pos.w()) + count(pos.b()) {
        db.code(s)
    } else {
        other[slot_of(s) as int]
    }
}

/// What is expected of a position, code by code: without a move 0; with a lost
/// successor one more than the least even code; with won successors only one
/// more than the greatest; else the draw code.
pub proof fn expected_codes_follow_from_successors(pos: Position, other: Seq<u16>, db: &Database, code: u16)
    requires
        expects(pos, other, db, code),
    ensures
        ({
            let l = succs(pos);
            let c = |s: Position| stored_code(pos, other, db, s);
            let lost = |s: Position| l.contains(s) && c(s) != 0xffff && c(s) % 2 == 0;
            let won = |s: Position| l.contains(s) && c(s) != 0xffff && c(s) % 2 == 1;
            if l.len() == 0 {
                code == 0
            } else if exists|s: Position| #[trigger] lost(s) {
                &&& exists|s: Position| #[trigger] lost(s) && code == c(s) + 1
                &&& forall|s: Position| #[trigger] lost(s) ==> code <= c(s) + 1
            } else if forall|s: Position| #[trigger] l.contains(s) ==> won(s) {
                &&& exists|s: Position| #[trigger] won(s) && code == c(s) + 1
                &&& forall|s: Position| #[trigger] won(s) ==> code >= c(s) + 1
            } else {
                code == 0xffff
            }
        }),
{
    let l = succs(pos);
    let c = |s: Position| stored_code(pos, other, db, s);
    let lost = |s: Position| l.contains(s) && c(s) != 0xffff && c(s) % 2 == 0;
    let won = |s: Position| l.contains(s) && c(s) != 0xffff && c(s) % 2 == 1;
    let worth = stored_worth(pos, other, db);
    let r = choose|r: Score| #[trigger] minimax(pos, worth, r) && code == encode(r);
    assert forall|s: Position| #[trigger] worth(s) == decode(c(s)) by {}
    assert forall|s: Position| #[trigger] lost(s) implies worth(s) == Score::Loss(c(s) as nat) by {}
    assert forall|s: Position| #[trigger] won(s) implies worth(s) == Score::Win(c(s) as nat) by {}
    if l.len() > 0 {
        assert(l.contains(l[0]));
        match r {
            Score::Win(d) => {
                let s = choose|s: Position| l.contains(s) && #[trigger] worth(s) == Score::Loss((d - 1) as nat);
                assert(lost(s));
            },
            Score::Loss(d) => {
                let s = choose|s: Position| l.contains(s) && #[trigger] worth(s) == Score::Win((d - 1) as nat);
                assert(won(s));
                assert forall|s: Position| #[trigger] l.contains(s) implies won(s) by {
                    assert(worth(s) is Win);
                }
                assert forall|s: Position| !#[trigger] lost(s) by {
                    if lost(s) {
                        assert(worth(s) is Win);
                    }
                }
            },
            Score::Draw => {
                let s = choose|s: Position| l.contains(s) && (#[trigger] worth(s)) is Draw;
                assert(l.contains(s) && !won(s));
                assert forall|s: Position| !#[trigger] lost(s) by {
                    if lost(s) {
                        assert(!(worth(s) is Loss));
                    }
                }
            },
        }
    }
}

} // verus!
