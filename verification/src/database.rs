//! The registry of solved subspaces.

use std::collections::HashMap;

use vstd::prelude::*;
use vstd::std_specs::hash::*;

use crate::game::Score;
use crate::index::{
    build_index_tables, index, slot_of, slots, slots_are_symmetry_invariant, stones, subspace_of,
    subspace_size, IndexTables, SubspaceId,
};
use crate::mapped::{mmap_contents, mmap_get_u16, mmap_slice, u16s};
use crate::mask::{count, disjoint};
use crate::pos::Position;
use crate::symmetry::image_pos;

verus! {

/// The code of a position that neither side can force.
pub const DRAW: u16 = 0xffff;

/// What a stored code means: its parity tells a loss from a win, and its
/// amount is the depth in plies.
pub open spec fn decode(code: u16) -> Score {
    if code == DRAW {
        Score::Draw
    } else if code % 2 == 0 {
        Score::Loss(code as nat)
    } else {
        Score::Win(code as nat)
    }
}

/// Whether a code stands for a loss.
#[inline]
pub fn is_loss(code: u16) -> (r: bool)
    ensures
        r == decode(code) is Loss,
{
    code != DRAW && code % 2 == 0
}

/// Whether a code stands for a win.
#[inline]
pub fn is_win(code: u16) -> (r: bool)
    ensures
        r == decode(code) is Win,
{
    code != DRAW && code % 2 == 1
}

/// The values of one subspace: held in memory, or mapped from a file where
/// holding everything would take too much memory.
enum Backing {
    Owned(Vec<u16>),
    Mapped(memmap2::Mmap),
}

impl Backing {
    spec fn values(self) -> Seq<u16> {
        match self {
            Backing::Owned(v) => v@,
            Backing::Mapped(m) => u16s(mmap_contents(m)),
        }
    }

    fn len(&self) -> (n: usize)
        ensures
            n == self.values().len(),
    {
        match self {
            Backing::Owned(v) => v.len(),
            Backing::Mapped(m) => mmap_slice(m).len() / 2,
        }
    }

    #[inline]
    fn get(&self, idx: u64) -> (v: u16)
        requires
            idx < self.values().len(),
        ensures
            v == self.values()[idx as int],
    {
        match self {
            Backing::Owned(v) => {
                assert(v.len() <= usize::MAX);
                v[idx as usize]
            },
            Backing::Mapped(m) => mmap_get_u16(m, idx),
        }
    }
}

spec fn key_of(w: u8, b: u8) -> u64 {
    (w as u64 * 256 + b as u64) as u64
}

fn key(w: u8, b: u8) -> (k: u64)
    ensures
        k == key_of(w, b),
{
    w as u64 * 256 + b as u64
}

/// A registry of solved subspaces, for looking up where captures lead.
pub struct Database {
    tables: IndexTables,
    arrays: HashMap<u64, Backing>,
}

impl View for Database {
    type V = Map<(u8, u8), Seq<u16>>;

    closed spec fn view(&self) -> Map<(u8, u8), Seq<u16>> {
        Map::new(
            |k: (u8, u8)| self.arrays@.contains_key(key_of(k.0, k.1)),
            |k: (u8, u8)| self.arrays@[key_of(k.0, k.1)].values(),
        )
    }
}

impl Database {
    /// Subspace `(w, b)` is registered with a value for each of its slots.
    pub open spec fn covers(&self, w: nat, b: nat) -> bool {
        let sub = SubspaceId { w: w as u8, b: b as u8 };
        &&& stones(w as int)
        &&& stones(b as int)
        &&& self@.contains_key((sub.w, sub.b))
        &&& slots(sub) <= self@[(sub.w, sub.b)].len()
    }

    /// The code stored for a position.
    pub open spec fn code(&self, pos: Position) -> u16 {
        let sub = subspace_of(pos);
        self@[(sub.w, sub.b)][slot_of(pos) as int]
    }

    /// The worth that the registered values give a position.
    pub open spec fn worth(&self, pos: Position) -> Score {
        decode(self.code(pos))
    }

    pub fn new() -> (db: Self)
        ensures
            db@ == Map::<(u8, u8), Seq<u16>>::empty(),
    {
        broadcast use group_hash_axioms;
        let db = Database { tables: build_index_tables(), arrays: HashMap::new() };
        assert(db@ =~= Map::<(u8, u8), Seq<u16>>::empty());
        db
    }

    pub closed spec fn index_tables(&self) -> IndexTables {
        self.tables
    }

    /// The index tables, built once with the registry.
    pub fn tables(&self) -> (tables: &IndexTables)
        ensures
            *tables == self.index_tables(),
    {
        &self.tables
    }

    proof fn lemma_insert(before: Map<u64, Backing>, w: u8, b: u8, values: Backing, db: Database, old_db: Database)
        requires
            old_db.arrays@ == before,
            db.arrays@ == before.insert(key_of(w, b), values),
        ensures
            db@ == old_db@.insert((w, b), values.values()),
    {
        assert forall|k: (u8, u8)| key_of(k.0, k.1) == key_of(w, b) implies k == (w, b) by {}
        assert(db@ =~= old_db@.insert((w, b), values.values()));
    }

    pub fn insert(&mut self, w: usize, b: usize, values: Vec<u16>)
        ensures
            final(self)@ == old(self)@.insert((w as u8, b as u8), values@),
    {
        broadcast use group_hash_axioms;
        let ghost before = *self;
        let ghost entry = Backing::Owned(values);
        self.arrays.insert(key(w as u8, b as u8), Backing::Owned(values));
        proof {
            Self::lemma_insert(before.arrays@, w as u8, b as u8, entry, *self, before);
        }
    }

    pub fn insert_mmap(&mut self, w: usize, b: usize, mmap: memmap2::Mmap)
        ensures
            final(self)@ == old(self)@.insert((w as u8, b as u8), u16s(mmap_contents(mmap))),
    {
        broadcast use group_hash_axioms;
        let ghost before = *self;
        let ghost entry = Backing::Mapped(mmap);
        self.arrays.insert(key(w as u8, b as u8), Backing::Mapped(mmap));
        proof {
            Self::lemma_insert(before.arrays@, w as u8, b as u8, entry, *self, before);
        }
    }

    pub fn has(&self, w: usize, b: usize) -> (r: bool)
        ensures
            r == self@.contains_key((w as u8, b as u8)),
    {
        broadcast use group_hash_axioms;
        self.arrays.contains_key(&key(w as u8, b as u8))
    }

    /// Whether a subspace is registered with a value for each of its slots.
    pub fn is_covered(&self, sub: SubspaceId) -> (r: bool)
        requires
            sub.wf(),
        ensures
            r == self.covers(sub.w as nat, sub.b as nat),
    {
        broadcast use group_hash_axioms;
        match self.arrays.get(&key(sub.w, sub.b)) {
            Some(values) => subspace_size(&self.tables, sub) <= values.len() as u64,
            None => false,
        }
    }

    pub fn get(&self, sub: SubspaceId, idx: u64) -> (code: u16)
        requires
            self@.contains_key((sub.w, sub.b)),
            idx < self@[(sub.w, sub.b)].len(),
        ensures
            code == self@[(sub.w, sub.b)][idx as int],
    {
        broadcast use group_hash_axioms;
        match self.arrays.get(&key(sub.w, sub.b)) {
            Some(values) => values.get(idx),
            None => {
                assert(false);
                DRAW
            },
        }
    }

    /// Look up a position's value; it must live in a registered subspace.
    pub fn lookup_pos(&self, pos: Position) -> (code: u16)
        requires
            disjoint(pos.w(), pos.b()),
            self.covers(count(pos.w()), count(pos.b())),
        ensures
            code == self.code(pos),
    {
        let (sub, idx) = index(&self.tables, pos);
        self.get(sub, idx)
    }
}

impl Default for Database {
    fn default() -> (db: Self)
        ensures
            db@ == Map::<(u8, u8), Seq<u16>>::empty(),
    {
        Database::new()
    }
}

/// Symmetric positions are stored alike.
pub proof fn lookups_are_symmetry_invariant(db: &Database, s: int, pos: Position)
    requires
        0 <= s < 16,
        pos.wf(),
    ensures
        db.code(image_pos(s, pos)) == db.code(pos),
{
    slots_are_symmetry_invariant(s, pos);
}

/// What the codes mean: 0xffff a draw, every other odd code a win and every even
/// code a loss, in as many plies.
pub proof fn codes_tell_outcomes_and_depths(code: u16)
    ensures
        decode(code) == if code == 0xffff {
            Score::Draw
        } else if code % 2 == 1 {
            Score::Win(code as nat)
        } else {
            Score::Loss(code as nat)
        },
{
}

} // verus!
