//! Subspace indexing: a near-perfect hash from positions to dense array
//! slots, one array per material subspace `(w, b)`.
//!
//! 1. Canonicalize the position: of its 16 images take the one that minimizes
//!    `white` first and `black` second.
//! 2. Rank the white set among the canonical `w`-sets, those that are the
//!    least of their images.
//! 3. Rank the black set as a `b`-subset of the points without a white stone.
//! 4. `index = white_rank * C(24-w, b) + black_rank`.
//!
//! Where the canonical white set has symmetries of its own, several black
//! sets are symmetric to one another, and each has a slot; `index` leads to
//! the least of them only. The other slots are wasted: code that walks over
//! all slots skips them (see `is_canonical_slot`).

use vstd::prelude::*;

use crate::mask::{
    count, disjoint, group_mask, lemma_count_on_board, lemma_count_union, lemma_disjoint, lemma_ext,
    lemma_on_board, member, on_board, FULL_MASK,
};
use crate::pos::{lemma_halves_on_board, lemma_pack, lemma_pos_ext, pack, Position};
use crate::rank::{
    binom, lemma_binom, lemma_binom_positive, lemma_binom_small, mask_rank, mask_unrank, rank,
    ranking_inverts_unranking, unrank, unranking_inverts_ranking,
};
use crate::symmetry::{
    canon, canonical_form_is_idempotent, canonical_form_is_invariant, canonicalize, image_pos, is_canon_set,
    is_canonical, is_canonical_set, lemma_canon_white, lemma_image_pos,
};
pub use crate::rank::BINOM;

verus! {

pub const MIN_STONES: usize = 3;

pub const MAX_STONES: usize = 9;

/// The positions with `w` stones for the side to move and `b` for the other.
#[derive(Clone, Copy, Debug, PartialEq, Eq, PartialOrd, Ord, Hash, Structural)]
pub struct SubspaceId {
    /// Stones of the side to move.
    pub w: u8,
    /// Stones of the opponent.
    pub b: u8,
}

/// A stone count that the movement phase knows.
pub open spec fn stones(n: int) -> bool {
    3 <= n <= 9
}

impl SubspaceId {
    /// Both counts are stone counts of the movement phase.
    pub open spec fn wf(self) -> bool {
        stones(self.w as int) && stones(self.b as int)
    }

    pub fn new(w: usize, b: usize) -> (sub: Self)
        requires
            stones(w as int),
            stones(b as int),
        ensures
            sub.w == w,
            sub.b == b,
            sub.wf(),
    {
        SubspaceId { w: w as u8, b: b as u8 }
    }

    pub fn flip(self) -> (sub: Self)
        ensures
            sub == (SubspaceId { w: self.b, b: self.w }),
    {
        SubspaceId { w: self.b, b: self.w }
    }
}

/// The canonical `w`-sets below `n`, in ascending order.
pub open spec fn canon_sets_below(w: nat, n: int) -> Seq<u32>
    decreases n,
{
    if n <= 0 {
        Seq::empty()
    } else if count((n - 1) as u32) == w && is_canon_set((n - 1) as u32) {
        canon_sets_below(w, n - 1).push((n - 1) as u32)
    } else {
        canon_sets_below(w, n - 1)
    }
}

/// The canonical `w`-sets, in ascending order.
#[verifier::opaque]
pub open spec fn canon_sets(w: nat) -> Seq<u32> {
    canon_sets_below(w, 0x100_0000)
}

/// The points outside a set.
pub open spec fn complement(m: u32) -> u32 {
    FULL_MASK & !m
}

/// The number of index slots of a subspace, wasted ones among them.
pub open spec fn slots(sub: SubspaceId) -> nat {
    canon_sets(sub.w as nat).len() * binom((24 - sub.w) as nat, sub.b as nat)
}

/// The position that a slot holds.
pub open spec fn slot_pos(sub: SubspaceId, idx: nat) -> Position {
    let c = binom((24 - sub.w) as nat, sub.b as nat);
    let white = canon_sets(sub.w as nat)[(idx / c) as int];
    pack(white, unrank(idx % c, sub.b as nat, complement(white)))
}

/// The subspace of a position.
pub open spec fn subspace_of(pos: Position) -> SubspaceId {
    SubspaceId { w: count(pos.w()) as u8, b: count(pos.b()) as u8 }
}

/// How many canonical sets of its size are less than `m`.
pub open spec fn set_rank(m: u32) -> nat {
    canon_sets_below(count(m), m as int).len()
}

/// The slot of a position: that of its canonical form.
pub open spec fn slot_of(pos: Position) -> nat {
    let c = canon(pos);
    set_rank(c.w()) * binom((24 - count(pos.w())) as nat, count(pos.b())) + rank(c.b(), complement(c.w()))
}

/// A slot whose position is its own canonical form.
pub open spec fn canonical_slot(sub: SubspaceId, idx: nat) -> bool {
    canon(slot_pos(sub, idx)) == slot_pos(sub, idx)
}

/// A position of the movement phase: well formed, with 3 to 9 stones a side.
pub open spec fn playable(pos: Position) -> bool {
    &&& pos.wf()
    &&& stones(count(pos.w()) as int)
    &&& stones(count(pos.b()) as int)
}

proof fn lemma_canon_sets_below(w: nat, n: int)
    requires
        0 <= n <= 0x100_0000,
    ensures
        canon_sets_below(w, n).len() <= n,
        forall|i: int, j: int|
            0 <= i < j < canon_sets_below(w, n).len() ==> canon_sets_below(w, n)[i] < canon_sets_below(w, n)[j],
        forall|i: int| 0 <= i < canon_sets_below(w, n).len() ==> {
            let m = #[trigger] canon_sets_below(w, n)[i];
            m < n && count(m) == w && is_canon_set(m) && canon_sets_below(w, m as int).len() == i
        },
        forall|m: u32|
            m < n && count(m) == w && is_canon_set(m) ==> {
                &&& (#[trigger] canon_sets_below(w, m as int)).len() < canon_sets_below(w, n).len()
                &&& canon_sets_below(w, n)[canon_sets_below(w, m as int).len() as int] == m
            },
    decreases n,
{
    if n > 0 {
        lemma_canon_sets_below(w, n - 1);
        let (a, b) = (canon_sets_below(w, n - 1), canon_sets_below(w, n));
        let x = (n - 1) as u32;
        assert forall|m: u32| m < n && count(m) == w && is_canon_set(m) implies {
            &&& (#[trigger] canon_sets_below(w, m as int)).len() < b.len()
            &&& b[canon_sets_below(w, m as int).len() as int] == m
        } by {
            if m < n - 1 {
                assert(a[canon_sets_below(w, m as int).len() as int] == m);
            }
        }
        assert forall|i: int| 0 <= i < b.len() implies {
            let m = #[trigger] b[i];
            m < n && count(m) == w && is_canon_set(m) && canon_sets_below(w, m as int).len() == i
        } by {
            if i < a.len() {
                assert(b[i] == a[i]);
            }
        }
    }
}

/// The table of canonical sets holds exactly those, each at its rank.
pub proof fn lemma_canon_sets(w: nat)
    ensures
        canon_sets(w).len() <= 0x100_0000,
        forall|i: int, j: int| 0 <= i < j < canon_sets(w).len() ==> canon_sets(w)[i] < canon_sets(w)[j],
        forall|i: int| 0 <= i < canon_sets(w).len() ==> {
            let m = #[trigger] canon_sets(w)[i];
            on_board(m) && count(m) == w && is_canon_set(m) && set_rank(m) == i
        },
        forall|m: u32|
            on_board(m) && count(m) == w && is_canon_set(m) ==> {
                &&& #[trigger] set_rank(m) < canon_sets(w).len()
                &&& canon_sets(w)[set_rank(m) as int] == m
            },
{
    reveal(canon_sets);
    lemma_canon_sets_below(w, 0x100_0000);
    assert forall|m: u32| on_board(m) && count(m) == w && is_canon_set(m) implies {
        &&& #[trigger] set_rank(m) < canon_sets(w).len()
        &&& canon_sets(w)[set_rank(m) as int] == m
    } by {
        assert(canon_sets_below(w, m as int).len() < canon_sets(w).len());
    }
}

/// Slot numbers stay far below 2^63.
pub proof fn lemma_slots_small(sub: SubspaceId)
    requires
        sub.wf(),
    ensures
        slots(sub) <= 0x100_0000 * 2704156,
{
    lemma_canon_sets(sub.w as nat);
    lemma_binom_small((24 - sub.w) as nat, sub.b as nat);
    let (n, c) = (canon_sets(sub.w as nat).len(), binom((24 - sub.w) as nat, sub.b as nat));
    assert(n * c <= 0x100_0000 * 2704156) by (nonlinear_arith)
        requires
            n <= 0x100_0000,
            c <= 2704156,
    ;
}

/// The complement of a board set.
pub proof fn lemma_complement(m: u32)
    requires
        on_board(m),
    ensures
        on_board(complement(m)),
        count(complement(m)) == 24 - count(m),
        forall|p: int| #[trigger] member(complement(m), p) == (0 <= p < 24 && !member(m, p)),
{
    broadcast use group_mask;
    let c = complement(m);
    lemma_on_board(m);
    lemma_on_board(c);
    lemma_disjoint(m, c);
    lemma_count_union(m, c);
    assert forall|p: int| 0 <= p < 32 implies member(m | c, p) == member(FULL_MASK, p) by {}
    lemma_ext(m | c, FULL_MASK);
    lemma_count_full(24);
    lemma_count_on_board(FULL_MASK);
}

proof fn lemma_count_full(n: int)
    requires
        0 <= n <= 24,
    ensures
        crate::mask::count_below(FULL_MASK, n) == n,
    decreases n,
{
    broadcast use group_mask;
    if n > 0 {
        lemma_count_full(n - 1);
    }
}

/// The slot arithmetic: rank pairs and slots correspond.
proof fn lemma_slot_arith(a: nat, n: nat, r: nat, c: nat)
    requires
        r < c,
        a < n,
    ensures
        a * c + r < n * c,
        (a * c + r) / c == a,
        (a * c + r) % c == r,
{
    assert(a * c + r < n * c) by (nonlinear_arith)
        requires
            r < c,
            a < n,
    ;
    vstd::arithmetic::div_mod::lemma_fundamental_div_mod_converse((a * c + r) as int, c as int, a as int, r as int);
}

/// The slot of a position lies in its subspace, is canonical, and holds the
/// canonical form.
pub proof fn slots_hold_canonical_forms(pos: Position)
    requires
        playable(pos),
    ensures
        slot_of(pos) < slots(subspace_of(pos)),
        slot_pos(subspace_of(pos), slot_of(pos)) == canon(pos),
        canonical_slot(subspace_of(pos), slot_of(pos)),
        set_rank(canon(pos).w()) < canon_sets(count(pos.w())).len(),
        rank(canon(pos).b(), complement(canon(pos).w())) < binom((24 - count(pos.w())) as nat, count(pos.b())),
{
    broadcast use group_mask;
    let sub = subspace_of(pos);
    let c = canon(pos);
    canonical_form_is_idempotent(pos);
    lemma_canon_white(pos);
    lemma_halves_on_board(c);
    lemma_canon_sets(count(pos.w()));
    lemma_complement(c.w());
    lemma_disjoint(c.w(), c.b());
    lemma_on_board(c.b());
    ranking_inverts_unranking(c.b(), complement(c.w()));
    let b = binom((24 - sub.w) as nat, sub.b as nat);
    lemma_slot_arith(set_rank(c.w()), canon_sets(sub.w as nat).len(), rank(c.b(), complement(c.w())), b);
    lemma_pack(c.w(), c.b());
    lemma_pos_ext(c, pack(c.w(), c.b()));
}

/// A slot holds a playable position of its subspace, with a canonical white set.
pub proof fn lemma_slot_pos(sub: SubspaceId, idx: nat)
    requires
        sub.wf(),
        idx < slots(sub),
    ensures
        playable(slot_pos(sub, idx)),
        subspace_of(slot_pos(sub, idx)) == sub,
        ({
            let c = binom((24 - sub.w) as nat, sub.b as nat);
            let white = canon_sets(sub.w as nat)[(idx / c) as int];
            &&& 0 < c
            &&& idx / c < canon_sets(sub.w as nat).len()
            &&& on_board(white)
            &&& count(white) == sub.w
            &&& count(complement(white)) == 24 - sub.w
            &&& on_board(complement(white))
            &&& slot_pos(sub, idx).w() == white
            &&& slot_pos(sub, idx).b() == unrank(idx % c, sub.b as nat, complement(white))
        }),
{
    broadcast use group_mask;
    let n = canon_sets(sub.w as nat).len();
    let c = binom((24 - sub.w) as nat, sub.b as nat);
    lemma_binom_positive((24 - sub.w) as nat, sub.b as nat);
    assert(idx / c < n) by (nonlinear_arith)
        requires
            idx < n * c,
            c > 0,
    ;
    assert(idx % c < c);
    lemma_canon_sets(sub.w as nat);
    let white = canon_sets(sub.w as nat)[(idx / c) as int];
    lemma_complement(white);
    unranking_inverts_ranking(idx % c, sub.b as nat, complement(white));
    let black = unrank(idx % c, sub.b as nat, complement(white));
    lemma_disjoint(white, black);
    lemma_pack(white, black);
}

/// Symmetric positions share their slot.
pub proof fn slots_are_symmetry_invariant(s: int, pos: Position)
    requires
        0 <= s < 16,
        pos.wf(),
    ensures
        subspace_of(image_pos(s, pos)) == subspace_of(pos),
        slot_of(image_pos(s, pos)) == slot_of(pos),
{
    canonical_form_is_invariant(s, pos);
    lemma_image_pos(s, pos);
}

/// A slot leads back to itself exactly when it is canonical.
pub proof fn canonical_slots_round_trip(sub: SubspaceId, idx: nat)
    requires
        sub.wf(),
        idx < slots(sub),
    ensures
        slot_of(slot_pos(sub, idx)) == idx <==> canonical_slot(sub, idx),
        subspace_of(slot_pos(sub, idx)) == sub,
{
    lemma_slot_pos(sub, idx);
    let pos = slot_pos(sub, idx);
    slots_hold_canonical_forms(pos);
    if canonical_slot(sub, idx) {
        let c = binom((24 - sub.w) as nat, sub.b as nat);
        let white = canon_sets(sub.w as nat)[(idx / c) as int];
        lemma_canon_sets(sub.w as nat);
        unranking_inverts_ranking(idx % c, sub.b as nat, complement(white));
        vstd::arithmetic::div_mod::lemma_fundamental_div_mod(idx as int, c as int);
        assert(c * (idx / c) == (idx / c) * c) by (nonlinear_arith);
    }
}

/// Two positions of one subspace share a slot exactly when they are symmetric.
pub proof fn slots_tell_classes_apart(p: Position, q: Position)
    requires
        playable(p),
        playable(q),
        subspace_of(p) == subspace_of(q),
    ensures
        slot_of(p) == slot_of(q) <==> canon(p) == canon(q),
{
    slots_hold_canonical_forms(p);
    slots_hold_canonical_forms(q);
}

/// The canonical white sets, by stone count.
pub struct IndexTables {
    white_sets: Vec<Vec<u32>>,
}

impl IndexTables {
    #[verifier::type_invariant]
    closed spec fn inv(self) -> bool {
        &&& self.white_sets.len() == 7
        &&& forall|k: int| 0 <= k < 7 ==> (#[trigger] self.white_sets[k])@ == canon_sets((k + 3) as nat)
    }

    /// The table of the sets with `w` points.
    pub closed spec fn table(&self, w: int) -> Seq<u32> {
        self.white_sets[w - 3]@
    }

    /// The canonical `w`-sets.
    fn white_sets(&self, w: usize) -> (v: &Vec<u32>)
        requires
            stones(w as int),
        ensures
            v@ == canon_sets(w as nat),
    {
        proof {
            use_type_invariant(self);
        }
        &self.white_sets[w - MIN_STONES]
    }
}

/// Enumerates all point sets and keeps the canonical ones: for each stone
/// count, in ascending order.
pub fn build_index_tables() -> (tables: IndexTables)
    ensures
        forall|w: int| stones(w) ==> #[trigger] tables.table(w) == canon_sets(w as nat),
{
    let mut white_sets: Vec<Vec<u32>> = Vec::new();
    let mut w: usize = MIN_STONES;
    while w <= MAX_STONES
        invariant
            3 <= w <= 10,
            white_sets.len() == w - 3,
            forall|k: int| 0 <= k < w - 3 ==> (#[trigger] white_sets[k])@ == canon_sets((k + 3) as nat),
        decreases 10 - w,
    {
        let mut sets: Vec<u32> = Vec::new();
        let mut mask: u32 = 0;
        while mask < 0x100_0000
            invariant
                mask <= 0x100_0000,
                sets@ == canon_sets_below(w as nat, mask as int),
            decreases 0x100_0000 - mask,
        {
            if mask.count_ones() as usize == w && is_canonical_set(mask) {
                sets.push(mask);
            }
            mask = mask + 1;
        }
        proof {
            reveal(canon_sets);
        }
        white_sets.push(sets);
        w = w + 1;
    }
    IndexTables { white_sets }
}

/// Number of canonical white-stone configurations for `w` stones.
pub fn n_canonical_white(tables: &IndexTables, w: usize) -> (n: usize)
    requires
        stones(w as int),
    ensures
        n == canon_sets(w as nat).len(),
{
    tables.white_sets(w).len()
}

/// Total number of index slots in subspace `(w, b)`, wasted ones among them.
pub fn subspace_size(tables: &IndexTables, sub: SubspaceId) -> (n: u64)
    requires
        sub.wf(),
    ensures
        n == slots(sub),
        n <= 0x100_0000 * 2704156,
{
    let sets: u64 = n_canonical_white(tables, sub.w as usize) as u64;
    let c: u64 = BINOM[24 - sub.w as usize][sub.b as usize];
    proof {
        lemma_canon_sets(sub.w as nat);
        lemma_binom(24 - sub.w, sub.b as int);
        lemma_binom_small((24 - sub.w) as nat, sub.b as nat);
        assert(sets * c <= 0x100_0000 * 2704156) by (nonlinear_arith)
            requires
                sets <= 0x100_0000,
                c <= 2704156,
        ;
    }
    sets * c
}

/// The rank of a canonical set in the table of its size, by binary search.
fn find_set(sets: &Vec<u32>, m: u32) -> (r: usize)
    requires
        on_board(m),
        is_canon_set(m),
        sets@ == canon_sets(count(m)),
    ensures
        r == set_rank(m),
{
    proof {
        lemma_canon_sets(count(m));
    }
    let ghost k = set_rank(m) as int;
    let mut lo: usize = 0;
    let mut hi: usize = sets.len();
    while lo < hi
        invariant
            lo <= k < hi <= sets.len(),
            sets@ == canon_sets(count(m)),
            sets@[k] == m,
            k == set_rank(m),
            forall|i: int, j: int| 0 <= i < j < sets@.len() ==> sets@[i] < sets@[j],
            on_board(m),
        decreases hi - lo,
    {
        let mid: usize = lo + (hi - lo) / 2;
        if sets[mid] == m {
            return mid;
        }
        if sets[mid] < m {
            lo = mid + 1;
        } else {
            hi = mid;
        }
    }
    lo
}

/// Map a position to its subspace and dense index slot. Canonicalizes first,
/// so the slot is the same for all 16 images and always canonical.
pub fn index(tables: &IndexTables, pos: Position) -> (r: (SubspaceId, u64))
    requires
        disjoint(pos.w(), pos.b()),
        stones(count(pos.w()) as int),
        stones(count(pos.b()) as int),
    ensures
        r.0 == subspace_of(pos),
        r.0.wf(),
        r.1 == slot_of(pos),
        r.1 < slots(r.0),
{
    let (c, _) = canonicalize(pos);
    proof {
        canonical_form_is_idempotent(pos);
        lemma_canon_white(pos);
        slots_hold_canonical_forms(c);
        lemma_halves_on_board(c);
        lemma_complement(c.w());
    }
    let w: usize = c.white_count() as usize;
    let b: usize = c.black_count() as usize;
    let white_rank: u64 = find_set(tables.white_sets(w), c.white()) as u64;
    let universe: u32 = FULL_MASK & !c.white();
    proof {
        broadcast use group_mask;
        lemma_disjoint(c.w(), c.b());
        lemma_disjoint(c.b(), !universe);
        lemma_on_board(c.b());
    }
    let black_rank: u64 = mask_rank(c.black(), universe);
    let choices: u64 = BINOM[24 - w][b];
    proof {
        lemma_binom(24 - w, b as int);
        lemma_binom_small((24 - w) as nat, b as nat);
        lemma_canon_sets(w as nat);
        assert(white_rank * choices <= 0x100_0000 * 2704156) by (nonlinear_arith)
            requires
                white_rank <= 0x100_0000,
                choices <= 2704156,
        ;
    }
    (SubspaceId::new(w, b), white_rank * choices + black_rank)
}

/// Reconstruct the position that occupies slot `idx` of subspace `sub`. The
/// white set is always canonical; the position is canonical exactly where
/// `index` leads back to the slot.
pub fn unindex(tables: &IndexTables, sub: SubspaceId, idx: u64) -> (pos: Position)
    requires
        sub.wf(),
        idx < slots(sub),
    ensures
        pos == slot_pos(sub, idx as nat),
        playable(pos),
        subspace_of(pos) == sub,
{
    proof {
        lemma_slot_pos(sub, idx as nat);
        lemma_canon_sets(sub.w as nat);
        lemma_binom(24 - sub.w, sub.b as int);
    }
    let (w, b) = (sub.w as usize, sub.b as usize);
    let choices: u64 = BINOM[24 - w][b];
    let white_rank: usize = (idx / choices) as usize;
    let black_rank: u64 = idx % choices;
    let white: u32 = tables.white_sets(w)[white_rank];
    let universe: u32 = FULL_MASK & !white;
    let black: u32 = mask_unrank(black_rank, b, universe);
    proof {
        broadcast use group_mask;
        lemma_complement(white);
        lemma_disjoint(white, black);
    }
    Position::new(white, black)
}

/// Whether slot `idx` of subspace `sub` holds a position that is its own
/// canonical form. Every update of a position's value goes through `index`
/// and so to a canonical slot; the other slots are never read, and counting
/// edges through them would count their symmetric twins twice.
pub fn is_canonical_slot(tables: &IndexTables, sub: SubspaceId, idx: u64) -> (r: bool)
    requires
        sub.wf(),
        idx < slots(sub),
    ensures
        r == canonical_slot(sub, idx as nat),
{
    is_canonical(unindex(tables, sub, idx))
}

/// All 49 ordered subspaces, `(w, b)` for `w, b` from 3 to 9.
pub fn all_subspaces() -> (v: Vec<SubspaceId>)
    ensures
        v@ == Seq::new(49, |i: int| SubspaceId { w: (3 + i / 7) as u8, b: (3 + i % 7) as u8 }),
{
    let mut v: Vec<SubspaceId> = Vec::new();
    let mut w: usize = MIN_STONES;
    while w <= MAX_STONES
        invariant
            3 <= w <= 10,
            v.len() == (w - 3) * 7,
            forall|i: int| 0 <= i < v.len() ==> #[trigger] v[i] == (SubspaceId { w: (3 + i / 7) as u8, b: (3 + i % 7) as u8 }),
        decreases 10 - w,
    {
        let mut b: usize = MIN_STONES;
        while b <= MAX_STONES
            invariant
                3 <= w <= 9,
                3 <= b <= 10,
                v.len() == (w - 3) * 7 + (b - 3),
                forall|i: int| 0 <= i < v.len() ==> #[trigger] v[i] == (SubspaceId { w: (3 + i / 7) as u8, b: (3 + i % 7) as u8 }),
            decreases 10 - b,
        {
            v.push(SubspaceId::new(w, b));
            b = b + 1;
        }
        w = w + 1;
    }
    assert(v@ =~= Seq::new(49, |i: int| SubspaceId { w: (3 + i / 7) as u8, b: (3 + i % 7) as u8 }));
    v
}

/// The order in which material pairs are solved: by total stones, then by the
/// smaller side.
pub open spec fn pair_before(p: (usize, usize), q: (usize, usize)) -> bool {
    p.0 + p.1 < q.0 + q.1 || p.0 + p.1 == q.0 + q.1 && p.0 < q.0
}

/// An unordered material pair `{a, b}`, written with the smaller side first.
pub open spec fn is_pair(p: (usize, usize)) -> bool {
    3 <= p.0 <= p.1 <= 9
}

/// The 28 unordered material pairs `{a, b}` in ascending order of total
/// stones: a capture leads from a pair to one earlier in this order.
pub fn solve_order() -> (pairs: Vec<(usize, usize)>)
    ensures
        forall|i: int| 0 <= i < pairs.len() ==> is_pair(#[trigger] pairs[i]),
        forall|p: (usize, usize)| is_pair(p) ==> #[trigger] pairs@.contains(p),
        forall|i: int, j: int| 0 <= i < j < pairs.len() ==> pair_before(#[trigger] pairs[i], #[trigger] pairs[j]),
{
    let mut pairs: Vec<(usize, usize)> = Vec::new();
    let mut total: usize = 6;
    while total <= 18
        invariant
            6 <= total <= 19,
            forall|i: int| 0 <= i < pairs.len() ==> is_pair(#[trigger] pairs[i]) && pairs[i].0 + pairs[i].1 < total,
            forall|p: (usize, usize)| is_pair(p) && p.0 + p.1 < total ==> #[trigger] pairs@.contains(p),
            forall|i: int, j: int| 0 <= i < j < pairs.len() ==> pair_before(#[trigger] pairs[i], #[trigger] pairs[j]),
        decreases 19 - total,
    {
        let mut a: usize = MIN_STONES;
        while a <= MAX_STONES
            invariant
                3 <= a <= 10,
                6 <= total <= 18,
                forall|i: int| 0 <= i < pairs.len() ==> {
                    let p = #[trigger] pairs[i];
                    is_pair(p) && (p.0 + p.1 < total || p.0 + p.1 == total && p.0 < a)
                },
                forall|p: (usize, usize)|
                    is_pair(p) && (p.0 + p.1 < total || p.0 + p.1 == total && p.0 < a) ==> #[trigger] pairs@.contains(p),
                forall|i: int, j: int| 0 <= i < j < pairs.len() ==> pair_before(#[trigger] pairs[i], #[trigger] pairs[j]),
            decreases 10 - a,
        {
            if a + a <= total && total - a <= MAX_STONES {
                let ghost before = pairs@;
                pairs.push((a, (total - a) as usize));
                proof {
                    assert forall|p: (usize, usize)|
                        is_pair(p) && (p.0 + p.1 < total || p.0 + p.1 == total && p.0 < a + 1) implies #[trigger] pairs@.contains(
                        p,
                    ) by {
                        if before.contains(p) {
                            let i = choose|i: int| 0 <= i < before.len() && before[i] == p;
                            assert(pairs@[i] == p);
                        } else {
                            assert(p.0 == a && p.1 == total - a);
                            assert(pairs@[before.len() as int] == p);
                        }
                    }
                }
            }
            a = a + 1;
        }
        total = total + 1;
    }
    pairs
}

/// A subspace has one slot for every board with a canonical white set and the right
/// numbers of stones, and no other slot. They go up with the white set, and for one
/// white set with the rank of the black set among the free points.
pub proof fn slots_number_the_boards(sub: SubspaceId, white: u32, black: u32, i: nat, j: nat)
    requires
        sub.wf(),
        on_board(white),
        on_board(black),
        disjoint(white, black),
        count(white) == sub.w,
        count(black) == sub.b,
        is_canon_set(white),
        i < j < slots(sub),
    ensures
        exists|k: nat| k < slots(sub) && #[trigger] slot_pos(sub, k) == pack(white, black),
        ({
            let (p, q) = (slot_pos(sub, i), slot_pos(sub, j));
            &&& p.wf() && count(p.w()) == sub.w && count(p.b()) == sub.b && is_canon_set(p.w())
            &&& p.w() < q.w() || p.w() == q.w() && rank(p.b(), complement(p.w())) < rank(q.b(), complement(q.w()))
        }),
{
    broadcast use group_mask;
    let c = binom((24 - sub.w) as nat, sub.b as nat);
    let u = complement(white);
    lemma_canon_sets(sub.w as nat);
    lemma_complement(white);
    lemma_disjoint(white, black);
    lemma_on_board(black);
    ranking_inverts_unranking(black, u);
    let (a, r) = (set_rank(white), rank(black, u));
    lemma_slot_arith(a, canon_sets(sub.w as nat).len(), r, c);
    assert(slot_pos(sub, a * c + r) == pack(white, black));
    lemma_slot_pos(sub, i);
    lemma_slot_pos(sub, j);
    let (x, y) = (i / c, j / c);
    unranking_inverts_ranking(i % c, sub.b as nat, complement(slot_pos(sub, i).w()));
    unranking_inverts_ranking(j % c, sub.b as nat, complement(slot_pos(sub, j).w()));
    assert(x < y || x == y && i % c < j % c) by (nonlinear_arith)
        requires
            i < j,
            c > 0,
            x == i / c,
            y == j / c,
    ;
}

} // verus!
