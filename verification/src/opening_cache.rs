//! A persistent cache of shallow opening-search table entries: one file,
//! written once, with which every opening search can fill its table.
//!
//! File format (all integers in the byte order of the machine: the file is made
//! to be read back where it was written):
//!
//! ```text
//! [8 bytes]  magic and version: NMMOPEN1
//! [8 bytes]  database fingerprint, see `db_fingerprint`
//! [8 bytes]  entry count n
//! [8 bytes]  payload checksum: XXH3 of the n*9 entry bytes that follow
//! [n * 9]    entries, ascending by key: [8 bytes key][1 byte value]
//! ```
//!
//! A key is the packed position, with the mover's hand in bits 48 to 51 and
//! the opponent's in bits 52 to 55; the bits above are zero. A value byte is
//! `(value + 1) | (bound << 2)`, with 0, 1 and 2 for exact, lower and upper.
//! Only a draw is ever stored as a bound, so five bytes are legal.

use vstd::prelude::*;
use vstd::slice::slice_subrange;
use vstd::string::*;
use vstd::utf8::*;

use crate::byte_order::{
    bytes_u64, native_bytes, numbers_round_trip, order_of, push_u64, read_u64, u64_at, u64_bytes, ByteOrder,
};
use crate::database::Database;
use crate::mask::disjoint;
use crate::opening::{entry_sound, in_range, key_ok, tt_sound, Bound, Tt, TtKey, TtValue};
use crate::persist::{xxh3_64, xxh3_64_of, Manifest, ManifestEntry};
use crate::pos::{lemma_packed_number, lemma_unpack, pack, Position};
use crate::text::{decimal, push_decimal, push_text};

verus! {

pub const CACHE_FILENAME: &'static str = "opening_cache.bin";

pub const HEADER_LEN: usize = 32;

pub const ENTRY_LEN: usize = 9;

/// The first eight bytes of a cache file.
pub open spec fn magic() -> Seq<u8> {
    seq![0x4eu8, 0x4d, 0x4d, 0x4f, 0x50, 0x45, 0x4e, 0x31]
}

/// A table key that the format can hold: a proper board, and at most nine
/// stones in each hand.
pub open spec fn storable_key(k: TtKey) -> bool {
    k.0.wf() && k.1 <= 9 && k.2 <= 9
}

/// A table value that the format can hold: any exact one, or a draw as bound.
pub open spec fn storable_value(e: TtValue) -> bool {
    -1 <= e.0 <= 1 && (e.1 == Bound::Exact || e.0 == 0)
}

/// The key as stored.
pub open spec fn stored_key(k: TtKey) -> u64 {
    (k.0.0 + k.1 * 0x1_0000_0000_0000 + k.2 * 0x10_0000_0000_0000) as u64
}

/// The key that is stored as `n`, if it is proper.
pub open spec fn key_from(n: u64) -> Option<TtKey> {
    let white = (n % 0x100_0000) as u32;
    let black = (n / 0x100_0000 % 0x100_0000) as u32;
    let mover = (n / 0x1_0000_0000_0000 % 16) as u8;
    let opp = (n / 0x10_0000_0000_0000 % 16) as u8;
    if n >= 0x100_0000_0000_0000 || !disjoint(white, black) || mover > 9 || opp > 9 {
        None
    } else {
        Some((pack(white, black), mover, opp))
    }
}

/// The value as stored.
pub open spec fn stored_value(e: TtValue) -> u8 {
    (e.0 + 1 + match e.1 {
        Bound::Exact => 0int,
        Bound::Lower => 4,
        Bound::Upper => 8,
    }) as u8
}

/// The value that is stored as `n`, if it is legal.
pub open spec fn value_from(n: u8) -> Option<TtValue> {
    if n == 0 {
        Some((-1i8, Bound::Exact))
    } else if n == 1 {
        Some((0, Bound::Exact))
    } else if n == 2 {
        Some((1, Bound::Exact))
    } else if n == 5 {
        Some((0, Bound::Lower))
    } else if n == 9 {
        Some((0, Bound::Upper))
    } else {
        None
    }
}

/// Storable keys and values come back from what is stored.
pub proof fn packing_round_trips(k: TtKey, e: TtValue)
    requires
        storable_key(k),
        storable_value(e),
    ensures
        key_from(stored_key(k)) == Some(k),
        value_from(stored_value(e)) == Some(e),
{
    lemma_packed_number(k.0);
    lemma_unpack(k.0);
    lemma_key_parts(k.0.0, k.1, k.2);
}

proof fn lemma_key_parts(p: u64, m: u8, o: u8)
    requires
        p < 0x1_0000_0000_0000,
        m <= 9,
        o <= 9,
    ensures
        ({
            let n = (p + m * 0x1_0000_0000_0000 + o * 0x10_0000_0000_0000) as u64;
            &&& n < 0x100_0000_0000_0000
            &&& n % 0x100_0000 == p % 0x100_0000
            &&& n / 0x100_0000 % 0x100_0000 == p / 0x100_0000 % 0x100_0000
            &&& n / 0x1_0000_0000_0000 % 16 == m
            &&& n / 0x10_0000_0000_0000 % 16 == o
        }),
{
    assert(({
        let n = (p + m * 0x1_0000_0000_0000 + o * 0x10_0000_0000_0000) as u64;
        &&& n < 0x100_0000_0000_0000
        &&& n % 0x100_0000 == p % 0x100_0000
        &&& n / 0x100_0000 % 0x100_0000 == p / 0x100_0000 % 0x100_0000
        &&& n / 0x1_0000_0000_0000 % 16 == m
        &&& n / 0x10_0000_0000_0000 % 16 == o
    })) by (bit_vector)
        requires
            p < 0x1_0000_0000_0000,
            m <= 9,
            o <= 9,
    ;
}

/// A table key as stored.
pub fn pack_key(pos: Position, mover_hand: u8, opp_hand: u8) -> (n: u64)
    requires
        key_ok((pos, mover_hand, opp_hand)),
        mover_hand <= 9,
        opp_hand <= 9,
    ensures
        n == stored_key((pos, mover_hand, opp_hand)),
{
    pos.0 + mover_hand as u64 * 0x1_0000_0000_0000 + opp_hand as u64 * 0x10_0000_0000_0000
}

/// The table key that is stored as `key`. `None` means that the file is
/// corrupt: a spare bit is set, a hand is out of range, or stones overlap.
pub fn unpack_key(key: u64) -> (r: Option<TtKey>)
    ensures
        r == key_from(key),
        r matches Some(k) ==> storable_key(k),
{
    if key >= 0x100_0000_0000_0000 {
        return None;
    }
    let white: u32 = (key % 0x100_0000) as u32;
    let black: u32 = (key / 0x100_0000 % 0x100_0000) as u32;
    let mover_hand: u8 = (key / 0x1_0000_0000_0000 % 16) as u8;
    let opp_hand: u8 = (key / 0x10_0000_0000_0000 % 16) as u8;
    if white & black != 0 || mover_hand > 9 || opp_hand > 9 {
        return None;
    }
    Some((Position::new(white, black), mover_hand, opp_hand))
}

/// A table value as stored.
pub fn pack_value(value: i8, bound: Bound) -> (n: u8)
    requires
        -1 <= value <= 1,
    ensures
        n == stored_value((value, bound)),
{
    let code: u8 = match bound {
        Bound::Exact => 0,
        Bound::Lower => 4,
        Bound::Upper => 8,
    };
    (value + 1) as u8 + code
}

/// The table value that is stored as `byte`; `None` for an illegal byte.
pub fn unpack_value(byte: u8) -> (r: Option<TtValue>)
    ensures
        r == value_from(byte),
        r matches Some(e) ==> storable_value(e),
{
    match byte {
        0 => Some((-1, Bound::Exact)),
        1 => Some((0, Bound::Exact)),
        2 => Some((1, Bound::Exact)),
        5 => Some((0, Bound::Lower)),
        9 => Some((0, Bound::Upper)),
        _ => None,
    }
}

/// Ascending by key, each key once.
pub open spec fn ascending(es: Seq<(u64, u8)>) -> bool {
    forall|i: int, j: int| 0 <= i < j < es.len() ==> (#[trigger] es[i]).0 < (#[trigger] es[j]).0
}

/// No key occurs twice.
pub open spec fn distinct_keys(es: Seq<(u64, u8)>) -> bool {
    forall|i: int, j: int| 0 <= i < j < es.len() ==> (#[trigger] es[i]).0 != (#[trigger] es[j]).0
}

/// Merge two ascending lists without a common key.
fn merge(a: &Vec<(u64, u8)>, b: &Vec<(u64, u8)>) -> (r: Vec<(u64, u8)>)
    requires
        ascending(a@),
        ascending(b@),
        forall|i: int, j: int| 0 <= i < a.len() && 0 <= j < b.len() ==> (#[trigger] a@[i]).0 != (#[trigger] b@[j]).0,
    ensures
        ascending(r@),
        r.len() == a.len() + b.len(),
        forall|x: (u64, u8)| #[trigger] r@.contains(x) <==> a@.contains(x) || b@.contains(x),
{
    let mut r: Vec<(u64, u8)> = Vec::new();
    let mut i: usize = 0;
    let mut j: usize = 0;
    while i < a.len() || j < b.len()
        invariant
            i <= a.len(),
            j <= b.len(),
            r.len() == i + j,
            ascending(a@),
            ascending(b@),
            ascending(r@),
            forall|i: int, j: int| 0 <= i < a.len() && 0 <= j < b.len() ==> (#[trigger] a@[i]).0 != (#[trigger] b@[j]).0,
            forall|x: (u64, u8)| #[trigger]
                r@.contains(x) <==> a@.take(i as int).contains(x) || b@.take(j as int).contains(x),
            forall|k: int, l: int| 0 <= k < r.len() && i <= l < a.len() ==> (#[trigger] r@[k]).0 < (#[trigger] a@[l]).0,
            forall|k: int, l: int| 0 <= k < r.len() && j <= l < b.len() ==> (#[trigger] r@[k]).0 < (#[trigger] b@[l]).0,
        decreases a.len() + b.len() - i - j,
    {
        let ghost before = r@;
        if j >= b.len() || (i < a.len() && a[i].0 < b[j].0) {
            r.push(a[i]);
            i = i + 1;
            proof {
                assert forall|x: (u64, u8)| #[trigger] r@.contains(x) <==> a@.take(i as int).contains(x) || b@.take(
                    j as int,
                ).contains(x) by {
                    lemma_push_contains(before, a@[i - 1], x);
                    lemma_push_contains(a@.take(i - 1), a@[i - 1], x);
                    assert(a@.take(i as int) =~= a@.take(i - 1).push(a@[i - 1]));
                }
            }
        } else {
            assert(i < a.len() ==> a@[i as int].0 != b@[j as int].0);
            r.push(b[j]);
            j = j + 1;
            proof {
                assert forall|x: (u64, u8)| #[trigger] r@.contains(x) <==> a@.take(i as int).contains(x) || b@.take(
                    j as int,
                ).contains(x) by {
                    lemma_push_contains(before, b@[j - 1], x);
                    lemma_push_contains(b@.take(j - 1), b@[j - 1], x);
                    assert(b@.take(j as int) =~= b@.take(j - 1).push(b@[j - 1]));
                }
            }
        }
    }
    assert(a@.take(i as int) =~= a@);
    assert(b@.take(j as int) =~= b@);
    r
}

proof fn lemma_push_contains<T>(s: Seq<T>, y: T, x: T)
    ensures
        s.push(y).contains(x) <==> s.contains(x) || x == y,
{
    let t = s.push(y);
    if s.contains(x) {
        let i = choose|i: int| 0 <= i < s.len() && s[i] == x;
        assert(t[i] == x);
    }
    assert(t[s.len() as int] == y);
    if t.contains(x) {
        let i = choose|i: int| 0 <= i < t.len() && t[i] == x;
        if i < s.len() {
            assert(s[i] == x);
        }
    }
}

/// Sort a list with distinct keys, ascending by key.
fn sort_by_key(v: Vec<(u64, u8)>) -> (r: Vec<(u64, u8)>)
    requires
        distinct_keys(v@),
    ensures
        ascending(r@),
        r.len() == v.len(),
        forall|x: (u64, u8)| #[trigger] r@.contains(x) <==> v@.contains(x),
    decreases v.len(),
{
    if v.len() <= 1 {
        return v;
    }
    let ghost all = v@;
    let mid: usize = v.len() / 2;
    let mut left: Vec<(u64, u8)> = v;
    let right: Vec<(u64, u8)> = left.split_off(mid);
    proof {
        assert forall|i: int, j: int| 0 <= i < j < left.len() implies (#[trigger] left@[i]).0 != (#[trigger] left@[j]).0 by {
            assert(left@[i] == all[i] && left@[j] == all[j]);
        }
        assert forall|i: int, j: int| 0 <= i < j < right.len() implies (#[trigger] right@[i]).0 != (#[trigger] right@[j]).0 by {
            assert(right@[i] == all[mid + i] && right@[j] == all[mid + j]);
        }
    }
    let ghost (gl, gr) = (left@, right@);
    let a: Vec<(u64, u8)> = sort_by_key(left);
    let b: Vec<(u64, u8)> = sort_by_key(right);
    proof {
        assert forall|i: int, j: int| 0 <= i < a.len() && 0 <= j < b.len() implies (#[trigger] a@[i]).0 != (#[trigger] b@[j]).0 by {
            assert(a@.contains(a@[i]) && b@.contains(b@[j]));
            let k = choose|k: int| 0 <= k < gl.len() && gl[k] == a@[i];
            let l = choose|l: int| 0 <= l < gr.len() && gr[l] == b@[j];
            assert(gl[k] == all[k] && gr[l] == all[mid + l]);
        }
        assert forall|x: (u64, u8)| gl.contains(x) || gr.contains(x) <==> #[trigger] all.contains(x) by {
            assert(gl + gr =~= all);
            crate::movegen::lemma_concat_contains(gl, gr, x);
        }
    }
    merge(&a, &b)
}

/// The bytes of a list of entries.
pub open spec fn payload_of(order: ByteOrder, es: Seq<(u64, u8)>) -> Seq<u8>
    decreases es.len(),
{
    if es.len() == 0 {
        Seq::empty()
    } else {
        payload_of(order, es.drop_last()) + u64_bytes(order, es.last().0).push(es.last().1)
    }
}

/// A cache file with the given fingerprint, payload checksum and entries.
pub open spec fn file_of(order: ByteOrder, fingerprint: u64, hash: u64, es: Seq<(u64, u8)>) -> Seq<u8> {
    magic() + u64_bytes(order, fingerprint) + u64_bytes(order, es.len() as u64) + u64_bytes(order, hash)
        + payload_of(order, es)
}

/// The entries of a table with at least `min` stones in hand, as stored.
pub open spec fn entries_of(tt: Map<TtKey, TtValue>, min: int, es: Seq<(u64, u8)>) -> bool {
    &&& ascending(es)
    &&& forall|x: (u64, u8)| #[trigger]
        es.contains(x) <==> exists|k: TtKey| #[trigger]
            tt.contains_key(k) && k.1 + k.2 >= min && x == (stored_key(k), stored_value(tt[k]))
}

/// Every key and value of the table can be packed.
pub open spec fn packable(tt: Map<TtKey, TtValue>) -> bool {
    forall|k: TtKey| #[trigger] tt.contains_key(k) ==> key_ok(k) && k.1 <= 9 && k.2 <= 9 && -1 <= tt[k].0 <= 1
}

proof fn lemma_stored_key_injective(k: TtKey, j: TtKey)
    requires
        key_ok(k),
        key_ok(j),
        k.1 <= 9,
        k.2 <= 9,
        j.1 <= 9,
        j.2 <= 9,
        stored_key(k) == stored_key(j),
    ensures
        k == j,
{
    let (x, m, o) = (k.0.0 as int, k.1 as int, k.2 as int);
    let (y, n, p) = (j.0.0 as int, j.1 as int, j.2 as int);
    assert(stored_key(k) == x + m * 0x1_0000_0000_0000 + o * 0x10_0000_0000_0000);
    assert(stored_key(j) == y + n * 0x1_0000_0000_0000 + p * 0x10_0000_0000_0000);
    let d = (m - n) + 16 * (o - p);
    assert(y - x == d * 0x1_0000_0000_0000);
    assert(d == 0);
    assert(o == p);
}

/// The entries of a table with at least `min_hand_sum` stones in hand, packed
/// and sorted by key.
fn pack_entries(tt: &Tt, min_hand_sum: u8) -> (es: Vec<(u64, u8)>)
    requires
        packable(tt@),
    ensures
        entries_of(tt@, min_hand_sum as int, es@),
{
    let keys: Vec<TtKey> = tt.keys();
    let mut es: Vec<(u64, u8)> = Vec::new();
    let mut i: usize = 0;
    while i < keys.len()
        invariant
            i <= keys.len(),
            packable(tt@),
            keys@.no_duplicates(),
            forall|k: TtKey| #[trigger] keys@.contains(k) <==> tt@.contains_key(k),
            distinct_keys(es@),
            forall|x: (u64, u8)| #[trigger]
                es@.contains(x) <==> exists|j: int|
                    0 <= j < i && (#[trigger] keys@[j]).1 + keys@[j].2 >= min_hand_sum && x == (
                        stored_key(keys@[j]),
                        stored_value(tt@[keys@[j]]),
                    ),
        decreases keys.len() - i,
    {
        let k: TtKey = keys[i];
        let ghost before = es@;
        assert(keys@.contains(k));
        assert(tt@.contains_key(k));
        if k.1 + k.2 >= min_hand_sum {
            let n: u64 = pack_key(k.0, k.1, k.2);
            if let Some((value, bound)) = tt.get(&k) {
                let v: u8 = pack_value(value, bound);
                es.push((n, v));
            }
            proof {
                let y = (stored_key(k), stored_value(tt@[k]));
                assert forall|a: int, b: int| 0 <= a < b < es@.len() implies (#[trigger] es@[a]).0 != (#[trigger] es@[b]).0 by {
                    if b == before.len() {
                        assert(before.contains(before[a]));
                        let j = choose|j: int|
                            0 <= j < i && (#[trigger] keys@[j]).1 + keys@[j].2 >= min_hand_sum && before[a] == (
                                stored_key(keys@[j]),
                                stored_value(tt@[keys@[j]]),
                            );
                        assert(keys@.contains(keys@[j]));
                        if stored_key(keys@[j]) == stored_key(k) {
                            lemma_stored_key_injective(keys@[j], k);
                        }
                    }
                }
                assert forall|x: (u64, u8)| #[trigger] es@.contains(x) <==> exists|j: int|
                    0 <= j < i + 1 && (#[trigger] keys@[j]).1 + keys@[j].2 >= min_hand_sum && x == (
                        stored_key(keys@[j]),
                        stored_value(tt@[keys@[j]]),
                    ) by {
                    lemma_push_contains(before, y, x);
                    if before.contains(x) {
                        let j = choose|j: int|
                            0 <= j < i && (#[trigger] keys@[j]).1 + keys@[j].2 >= min_hand_sum && x == (
                                stored_key(keys@[j]),
                                stored_value(tt@[keys@[j]]),
                            );
                        assert(0 <= j < i + 1);
                    }
                    if x == y {
                        assert(keys@[i as int] == k);
                    }
                }
            }
        }
        i = i + 1;
    }
    let ghost unsorted = es@;
    let sorted: Vec<(u64, u8)> = sort_by_key(es);
    proof {
        assert forall|x: (u64, u8)| #[trigger] sorted@.contains(x) <==> exists|k: TtKey| #[trigger]
            tt@.contains_key(k) && k.1 + k.2 >= min_hand_sum && x == (stored_key(k), stored_value(tt@[k])) by {
            assert(sorted@.contains(x) <==> unsorted.contains(x));
            if unsorted.contains(x) {
                let j = choose|j: int|
                    0 <= j < i && (#[trigger] keys@[j]).1 + keys@[j].2 >= min_hand_sum && x == (
                        stored_key(keys@[j]),
                        stored_value(tt@[keys@[j]]),
                    );
                assert(keys@.contains(keys@[j]));
                assert(tt@.contains_key(keys@[j]));
            }
            if exists|k: TtKey| #[trigger]
                tt@.contains_key(k) && k.1 + k.2 >= min_hand_sum && x == (stored_key(k), stored_value(tt@[k])) {
                let k = choose|k: TtKey| #[trigger]
                    tt@.contains_key(k) && k.1 + k.2 >= min_hand_sum && x == (stored_key(k), stored_value(tt@[k]));
                assert(keys@.contains(k));
                let j = choose|j: int| 0 <= j < keys@.len() && keys@[j] == k;
                assert(keys@[j].1 + keys@[j].2 >= min_hand_sum);
            }
        }
    }
    sorted
}

/// Subspaces in order of mover stones, then of opponent stones.
pub open spec fn key_le(a: ManifestEntry, b: ManifestEntry) -> bool {
    a.w < b.w || a.w == b.w && a.b <= b.b
}

/// A sorted list with `e` put in after everything that does not exceed it.
pub open spec fn put_sorted(s: Seq<ManifestEntry>, e: ManifestEntry) -> Seq<ManifestEntry>
    decreases s.len(),
{
    if s.len() == 0 || key_le(s.last(), e) {
        s.push(e)
    } else {
        put_sorted(s.drop_last(), e).push(s.last())
    }
}

/// The entries in order of subspace; entries for one subspace keep their order.
pub open spec fn sorted_entries(s: Seq<ManifestEntry>) -> Seq<ManifestEntry>
    decreases s.len(),
{
    if s.len() == 0 {
        Seq::empty()
    } else {
        put_sorted(sorted_entries(s.drop_last()), s.last())
    }
}

/// What the fingerprint takes from one entry: the subspace and the checksum.
pub open spec fn entry_text(e: ManifestEntry) -> Seq<char> {
    decimal(e.w as nat) + "-"@ + decimal(e.b as nat) + ":"@ + e.xxh3@ + ";"@
}

/// The texts of a list of entries, one after the other.
pub open spec fn entries_text(s: Seq<ManifestEntry>) -> Seq<char>
    decreases s.len(),
{
    if s.len() == 0 {
        Seq::empty()
    } else {
        entries_text(s.drop_last()) + entry_text(s.last())
    }
}

/// The text whose hash is the fingerprint.
pub open spec fn fingerprint_text(entries: Seq<ManifestEntry>) -> Seq<char> {
    entries_text(sorted_entries(entries))
}

/// The fingerprint of a list of entries.
pub open spec fn fingerprint_of(entries: Seq<ManifestEntry>) -> u64 {
    xxh3_64_of(encode_utf8(fingerprint_text(entries)))
}

/// The places of the entries, in order of subspace.
fn sorted_places(entries: &Vec<ManifestEntry>) -> (order: Vec<usize>)
    ensures
        order.len() == entries.len(),
        forall|i: int| 0 <= i < order.len() ==> #[trigger] order[i] < entries.len(),
        order@.map_values(|i: usize| entries@[i as int]) == sorted_entries(entries@),
{
    let mut order: Vec<usize> = Vec::new();
    let ghost f = |i: usize| entries@[i as int];
    assert(entries@.take(0) =~= Seq::<ManifestEntry>::empty());
    assert(order@.map_values(f) =~= Seq::<ManifestEntry>::empty());
    let mut k: usize = 0;
    while k < entries.len()
        invariant
            k <= entries.len(),
            f == (|i: usize| entries@[i as int]),
            order.len() == k,
            forall|i: int| 0 <= i < order.len() ==> #[trigger] order[i] < entries.len(),
            order@.map_values(f) == sorted_entries(entries@.take(k as int)),
        decreases entries.len() - k,
    {
        let ghost sorted = order@.map_values(f);
        let ghost old_order = order@;
        let mut at: usize = order.len();
        proof {
            assert(sorted.take(at as int) =~= sorted);
            assert(sorted.skip(at as int) =~= Seq::<ManifestEntry>::empty());
            assert(put_sorted(sorted.take(at as int), entries@[k as int]) + sorted.skip(at as int) =~= put_sorted(
                sorted,
                entries@[k as int],
            ));
        }
        while at > 0 && (entries[order[at - 1]].w > entries[k].w || (entries[order[at - 1]].w == entries[k].w
            && entries[order[at - 1]].b > entries[k].b))
            invariant
                at <= order.len(),
                k < entries.len(),
                order@ == old_order,
                f == (|i: usize| entries@[i as int]),
                sorted == order@.map_values(f),
                forall|i: int| 0 <= i < order.len() ==> #[trigger] order[i] < entries.len(),
                put_sorted(sorted.take(at as int), entries@[k as int]) + sorted.skip(at as int) == put_sorted(
                    sorted,
                    entries@[k as int],
                ),
            decreases at,
        {
            proof {
                let s = sorted.take(at as int);
                assert(s.last() == entries@[order@[at - 1] as int]);
                assert(s.drop_last() =~= sorted.take(at - 1));
                assert(put_sorted(sorted.take(at - 1), entries@[k as int]).push(s.last()) + sorted.skip(at as int)
                    =~= put_sorted(sorted.take(at - 1), entries@[k as int]) + sorted.skip(at - 1));
            }
            at = at - 1;
        }
        proof {
            let s = sorted.take(at as int);
            assert(at > 0 ==> s.last() == entries@[order@[at - 1] as int]);
            assert(put_sorted(s, entries@[k as int]) == s.push(entries@[k as int]));
        }
        order.insert(at, k);
        proof {
            assert(entries@.take(k + 1).drop_last() =~= entries@.take(k as int));
            assert(order@.map_values(f) =~= sorted.take(at as int).push(entries@[k as int]) + sorted.skip(at as int));
        }
        k = k + 1;
    }
    assert(entries@.take(k as int) =~= entries@);
    order
}

/// The text whose hash is the fingerprint.
pub fn fingerprint_source(manifest: &Manifest) -> (s: String)
    ensures
        s@ == fingerprint_text(manifest.entries@),
{
    let order: Vec<usize> = sorted_places(&manifest.entries);
    let ghost sorted = sorted_entries(manifest.entries@);
    let mut s: String = String::new();
    let mut i: usize = 0;
    assert(sorted.take(0) =~= Seq::<ManifestEntry>::empty());
    while i < order.len()
        invariant
            i <= order.len(),
            order.len() == manifest.entries.len(),
            sorted == order@.map_values(|i: usize| manifest.entries@[i as int]),
            forall|i: int| 0 <= i < order.len() ==> #[trigger] order[i] < manifest.entries.len(),
            s@ == entries_text(sorted.take(i as int)),
        decreases order.len() - i,
    {
        let e: &ManifestEntry = &manifest.entries[order[i]];
        let ghost before = s@;
        push_decimal(&mut s, e.w as u64);
        push_text(&mut s, "-");
        push_decimal(&mut s, e.b as u64);
        push_text(&mut s, ":");
        push_text(&mut s, e.xxh3.as_str());
        push_text(&mut s, ";");
        proof {
            assert(s@ =~= before + entry_text(*e));
            assert(sorted.take(i + 1).drop_last() =~= sorted.take(i as int));
            assert(sorted.take(i + 1).last() == *e);
        }
        i = i + 1;
    }
    assert(sorted.take(i as int) =~= sorted);
    s
}

/// A fingerprint of the database that a manifest lists. It goes by content:
/// solving a pair again with the same result leaves it as it is, and any
/// change of a value file changes the text that it hashes.
pub fn db_fingerprint(manifest: &Manifest) -> (h: u64)
    ensures
        h == fingerprint_of(manifest.entries@),
{
    let s: String = fingerprint_source(manifest);
    xxh3_64(s.as_str().as_bytes())
}

/// The bytes of a list of entries.
fn pack_payload(order: ByteOrder, es: &Vec<(u64, u8)>) -> (payload: Vec<u8>)
    ensures
        payload@ == payload_of(order, es@),
{
    let mut payload: Vec<u8> = Vec::new();
    let mut i: usize = 0;
    assert(es@.take(0) =~= Seq::<(u64, u8)>::empty());
    while i < es.len()
        invariant
            i <= es.len(),
            payload@ == payload_of(order, es@.take(i as int)),
        decreases es.len() - i,
    {
        let (key, value) = es[i];
        let ghost before = payload@;
        push_u64(&mut payload, order, key);
        payload.push(value);
        proof {
            assert(es@.take(i + 1).drop_last() =~= es@.take(i as int));
            assert(payload@ =~= before + u64_bytes(order, key).push(value));
        }
        i = i + 1;
    }
    assert(es@.take(i as int) =~= es@);
    payload
}

/// A cache file with the given fingerprint, entry count, payload checksum and
/// payload.
pub fn frame(order: ByteOrder, fingerprint: u64, n: u64, hash: u64, payload: &Vec<u8>) -> (buf: Vec<u8>)
    ensures
        buf@ == magic() + u64_bytes(order, fingerprint) + u64_bytes(order, n) + u64_bytes(order, hash) + payload@,
{
    let mut buf: Vec<u8> = Vec::new();
    buf.push(0x4e);
    buf.push(0x4d);
    buf.push(0x4d);
    buf.push(0x4f);
    buf.push(0x50);
    buf.push(0x45);
    buf.push(0x4e);
    buf.push(0x31);
    assert(buf@ =~= magic());
    push_u64(&mut buf, order, fingerprint);
    push_u64(&mut buf, order, n);
    push_u64(&mut buf, order, hash);
    let ghost header = buf@;
    let mut i: usize = 0;
    while i < payload.len()
        invariant
            i <= payload.len(),
            buf@ == header + payload@.take(i as int),
        decreases payload.len() - i,
    {
        buf.push(payload[i]);
        assert(buf@ =~= header + payload@.take(i + 1));
        i = i + 1;
    }
    assert(payload@.take(i as int) =~= payload@);
    buf
}

/// The cache file, with numbers in the given order, for the entries of `tt` with
/// at least `min_hand_sum` stones in hand (a state after `p` plies has `18 - p`
/// of them), and their number.
pub fn write_cache_in(order: ByteOrder, fingerprint: u64, tt: &Tt, min_hand_sum: u8) -> (r: (Vec<u8>, usize))
    requires
        packable(tt@),
    ensures
        is_cache(order, fingerprint, tt@, min_hand_sum as int, r.0@, r.1 as nat),
{
    let es: Vec<(u64, u8)> = pack_entries(tt, min_hand_sum);
    let payload: Vec<u8> = pack_payload(order, &es);
    let hash: u64 = xxh3_64(payload.as_slice());
    let buf: Vec<u8> = frame(order, fingerprint, es.len() as u64, hash, &payload);
    assert(entries_of(tt@, min_hand_sum as int, es@));
    (buf, es.len())
}

/// `bytes` is the cache file of the entries of a table with at least `min`
/// stones in hand, of which there are `n`.
pub open spec fn is_cache(
    order: ByteOrder,
    fingerprint: u64,
    tt: Map<TtKey, TtValue>,
    min: int,
    bytes: Seq<u8>,
    n: nat,
) -> bool {
    exists|es: Seq<(u64, u8)>| #[trigger]
        entries_of(tt, min, es) && n == es.len() && bytes == file_of(
            order,
            fingerprint,
            xxh3_64_of(payload_of(order, es)),
            es,
        )
}

/// The cache file in the byte order of the machine.
pub fn write_cache(fingerprint: u64, tt: &Tt, min_hand_sum: u8) -> (r: (Vec<u8>, usize))
    requires
        packable(tt@),
    ensures
        exists|order: ByteOrder| #[trigger] is_cache(order, fingerprint, tt@, min_hand_sum as int, r.0@, r.1 as nat),
{
    write_cache_in(order_of(&native_bytes(1)), fingerprint, tt, min_hand_sum)
}

/// What a cache file can turn out to be.
pub enum ParseOutcome {
    /// A table.
    Loaded(Tt),
    /// Built for another database.
    Stale,
    /// Not a cache file, for the reason given.
    Corrupt(&'static str),
}

/// What a cache file is, as a mathematical value.
#[verifier::ext_equal]
pub enum Parsed {
    Table(Map<TtKey, TtValue>),
    Stale,
    Corrupt(Seq<char>),
}

impl View for ParseOutcome {
    type V = Parsed;

    open spec fn view(&self) -> Parsed {
        match self {
            ParseOutcome::Loaded(tt) => Parsed::Table(tt@),
            ParseOutcome::Stale => Parsed::Stale,
            ParseOutcome::Corrupt(reason) => Parsed::Corrupt(reason@),
        }
    }
}

/// The table that the first `i` entries of a payload make, or what is wrong
/// with the first bad one.
pub open spec fn parsed_entries(order: ByteOrder, payload: Seq<u8>, i: int) -> Parsed
    decreases i,
{
    if i <= 0 {
        Parsed::Table(Map::empty())
    } else {
        match parsed_entries(order, payload, i - 1) {
            Parsed::Table(m) => {
                let key = u64_at(order, payload, 9 * (i - 1));
                if i > 1 && key <= u64_at(order, payload, 9 * (i - 2)) {
                    Parsed::Corrupt("entries not strictly ascending by key"@)
                } else {
                    match (key_from(key), value_from(payload[9 * (i - 1) + 8])) {
                        (None, _) => Parsed::Corrupt("invalid packed key"@),
                        (_, None) => Parsed::Corrupt("invalid packed value"@),
                        (Some(k), Some(e)) => Parsed::Table(m.insert(k, e)),
                    }
                }
            },
            bad => bad,
        }
    }
}

/// What a file is, for a database with the given fingerprint, if the bytes
/// after its header have the given hash.
pub open spec fn parsed(order: ByteOrder, bytes: Seq<u8>, fingerprint: u64, hash: u64) -> Parsed {
    let n = u64_at(order, bytes, 16);
    if bytes.len() < 32 {
        Parsed::Corrupt("file too short for header"@)
    } else if bytes.take(8) != magic() {
        Parsed::Corrupt("bad magic/version"@)
    } else if u64_at(order, bytes, 8) != fingerprint {
        Parsed::Stale
    } else if 9 * n > u64::MAX {
        Parsed::Corrupt("entry count overflows payload length"@)
    } else if 32 + 9 * n > u64::MAX {
        Parsed::Corrupt("entry count overflows file length"@)
    } else if bytes.len() != 32 + 9 * n {
        Parsed::Corrupt("file length does not match header entry count"@)
    } else if u64_at(order, bytes, 24) != hash {
        Parsed::Corrupt("payload checksum mismatch"@)
    } else {
        parsed_entries(order, bytes.skip(32), n as int)
    }
}

/// Whether a byte slice begins with the magic bytes.
fn has_magic(bytes: &[u8]) -> (r: bool)
    requires
        bytes@.len() >= 8,
    ensures
        r == (bytes@.take(8) == magic()),
{
    let r: bool = bytes[0] == 0x4e && bytes[1] == 0x4d && bytes[2] == 0x4d && bytes[3] == 0x4f && bytes[4] == 0x50 && bytes[5]
        == 0x45 && bytes[6] == 0x4e && bytes[7] == 0x31;
    proof {
        let t = bytes@.take(8);
        assert(forall|i: int| 0 <= i < 8 ==> t[i] == bytes@[i]);
        if r {
            assert(t =~= magic());
        } else if t == magic() {
            assert(magic()[0] == 0x4e && magic()[1] == 0x4d && magic()[2] == 0x4d && magic()[3] == 0x4f && magic()[4] == 0x50
                && magic()[5] == 0x45 && magic()[6] == 0x4e && magic()[7] == 0x31);
        }
    }
    r
}

/// Parse the entries of a payload.
fn parse_entries(order: ByteOrder, payload: &[u8], n: usize) -> (r: ParseOutcome)
    requires
        payload@.len() == 9 * n,
    ensures
        r@ == parsed_entries(order, payload@, n as int),
        r matches ParseOutcome::Loaded(tt) ==> storable(tt@),
{
    let mut tt = Tt::new();
    let mut prev: u64 = 0;
    let mut i: usize = 0;
    while i < n
        invariant
            i <= n,
            payload@.len() == 9 * n,
            parsed_entries(order, payload@, i as int) == Parsed::Table(tt@),
            storable(tt@),
            i > 0 ==> prev == u64_at(order, payload@, 9 * (i - 1)),
        decreases n - i,
    {
        assert(payload@.len() <= usize::MAX) by {
            vstd::slice::axiom_spec_len(payload);
        }
        let key: u64 = read_u64(order, payload, 9 * i);
        if i > 0 && key <= prev {
            proof {
                lemma_bad_stays(order, payload@, i + 1, n as int);
            }
            return ParseOutcome::Corrupt("entries not strictly ascending by key");
        }
        prev = key;
        let k: TtKey = match unpack_key(key) {
            Some(k) => k,
            None => {
                proof {
                    lemma_bad_stays(order, payload@, i + 1, n as int);
                }
                return ParseOutcome::Corrupt("invalid packed key");
            },
        };
        let e: TtValue = match unpack_value(payload[9 * i + 8]) {
            Some(e) => e,
            None => {
                proof {
                    lemma_bad_stays(order, payload@, i + 1, n as int);
                }
                return ParseOutcome::Corrupt("invalid packed value");
            },
        };
        tt.insert(k, e);
        i = i + 1;
    }
    ParseOutcome::Loaded(tt)
}

/// A bad entry spoils the rest.
proof fn lemma_bad_stays(order: ByteOrder, payload: Seq<u8>, i: int, n: int)
    requires
        0 <= i <= n,
        parsed_entries(order, payload, i) is Corrupt,
    ensures
        parsed_entries(order, payload, n) == parsed_entries(order, payload, i),
    decreases n - i,
{
    if i < n {
        lemma_bad_stays(order, payload, i, n - 1);
    }
}

/// Parse a cache file for a database with the given fingerprint, given the
/// hash of the bytes after its header.
pub fn parse_with(order: ByteOrder, bytes: &[u8], fingerprint: u64, hash: u64) -> (r: ParseOutcome)
    ensures
        r@ == parsed(order, bytes@, fingerprint, hash),
        r matches ParseOutcome::Loaded(tt) ==> storable(tt@),
{
    let len: usize = bytes.len();
    if len < HEADER_LEN {
        return ParseOutcome::Corrupt("file too short for header");
    }
    if !has_magic(bytes) {
        return ParseOutcome::Corrupt("bad magic/version");
    }
    if read_u64(order, bytes, 8) != fingerprint {
        return ParseOutcome::Stale;
    }
    let n: u64 = read_u64(order, bytes, 16);
    if n > 0xffff_ffff_ffff_ffff / 9 {
        return ParseOutcome::Corrupt("entry count overflows payload length");
    }
    if 9 * n > 0xffff_ffff_ffff_ffff - 32 {
        return ParseOutcome::Corrupt("entry count overflows file length");
    }
    if len as u64 != 32 + 9 * n {
        return ParseOutcome::Corrupt("file length does not match header entry count");
    }
    if read_u64(order, bytes, 24) != hash {
        return ParseOutcome::Corrupt("payload checksum mismatch");
    }
    let payload = slice_subrange(bytes, HEADER_LEN, len);
    assert(payload@ =~= bytes@.skip(32));
    parse_entries(order, payload, n as usize)
}

/// The bytes after the header of a cache file; none if there is no header.
pub open spec fn payload_bytes(bytes: Seq<u8>) -> Seq<u8> {
    if bytes.len() < 32 {
        Seq::empty()
    } else {
        bytes.skip(32)
    }
}

/// What a file is for the database that a manifest lists.
pub open spec fn parsed_for(order: ByteOrder, bytes: Seq<u8>, entries: Seq<ManifestEntry>) -> Parsed {
    parsed(order, bytes, fingerprint_of(entries), xxh3_64_of(payload_bytes(bytes)))
}

/// Parse a cache file, with numbers in the given order, for the database that a
/// manifest lists.
pub fn parse_cache_in(order: ByteOrder, bytes: &[u8], manifest: &Manifest) -> (r: ParseOutcome)
    ensures
        r@ == parsed_for(order, bytes@, manifest.entries@),
        r matches ParseOutcome::Loaded(tt) ==> storable(tt@),
{
    let len: usize = bytes.len();
    let start: usize = if len < HEADER_LEN {
        len
    } else {
        HEADER_LEN
    };
    let payload = slice_subrange(bytes, start, len);
    assert(payload@ =~= payload_bytes(bytes@));
    parse_with(order, bytes, db_fingerprint(manifest), xxh3_64(payload))
}

/// Parse a cache file in the byte order of the machine.
pub fn parse_cache(bytes: &[u8], manifest: &Manifest) -> (r: ParseOutcome)
    ensures
        exists|order: ByteOrder| r@ == #[trigger] parsed_for(order, bytes@, manifest.entries@),
        r matches ParseOutcome::Loaded(tt) ==> storable(tt@),
{
    parse_cache_in(order_of(&native_bytes(1)), bytes, manifest)
}

/// The table to start with: that of the file, if it is one.
pub open spec fn table_of(p: Parsed) -> Map<TtKey, TtValue> {
    match p {
        Parsed::Table(m) => m,
        _ => Map::empty(),
    }
}

/// What a search starts with: the table of the cache file, or an empty one if
/// there is no file, or it is stale or corrupt. A bad file costs time, never
/// the search.
pub fn load_or_empty(bytes: Option<&[u8]>, manifest: &Manifest) -> (tt: Tt)
    ensures
        match bytes {
            None => tt@ == Map::<TtKey, TtValue>::empty(),
            Some(b) => exists|order: ByteOrder| tt@ == table_of(#[trigger] parsed_for(order, b@, manifest.entries@)),
        },
        storable(tt@),
{
    match bytes {
        None => Tt::new(),
        Some(b) => match parse_cache(b, manifest) {
            ParseOutcome::Loaded(tt) => tt,
            _ => Tt::new(),
        },
    }
}

/// Where the parts of an entry are in a payload.
proof fn lemma_payload(order: ByteOrder, es: Seq<(u64, u8)>, i: int)
    requires
        0 <= i < es.len(),
    ensures
        payload_of(order, es).len() == 9 * es.len(),
        u64_at(order, payload_of(order, es), 9 * i) == es[i].0,
        payload_of(order, es)[9 * i + 8] == es[i].1,
    decreases es.len(),
{
    broadcast use numbers_round_trip;
    lemma_payload_len(order, es);
    let r = es.drop_last();
    lemma_payload_len(order, r);
    let p = payload_of(order, es);
    if i == es.len() - 1 {
        assert(p.subrange(9 * i, 9 * i + 8) =~= u64_bytes(order, es[i].0));
    } else {
        lemma_payload(order, r, i);
        assert(r[i] == es[i]);
        assert(p.subrange(9 * i, 9 * i + 8) =~= payload_of(order, r).subrange(9 * i, 9 * i + 8));
        assert(p[9 * i + 8] == payload_of(order, r)[9 * i + 8]);
    }
}

proof fn lemma_payload_len(order: ByteOrder, es: Seq<(u64, u8)>)
    ensures
        payload_of(order, es).len() == 9 * es.len(),
    decreases es.len(),
{
    broadcast use numbers_round_trip;
    if es.len() > 0 {
        lemma_payload_len(order, es.drop_last());
        let _ = u64_bytes(order, es.last().0);
    }
}

/// Every key and value of the table can be stored and read back.
pub open spec fn storable(tt: Map<TtKey, TtValue>) -> bool {
    forall|k: TtKey| #[trigger] tt.contains_key(k) ==> storable_key(k) && storable_value(tt[k])
}

/// A table that can be stored can be packed.
pub proof fn storable_tables_can_be_packed(tt: Map<TtKey, TtValue>)
    requires
        storable(tt),
    ensures
        packable(tt),
{
    assert forall|k: TtKey| #[trigger] tt.contains_key(k) implies key_ok(k) && k.1 <= 9 && k.2 <= 9 && -1 <= tt[k].0 <= 1 by {
        assert(storable_key(k));
    }
}

/// A table that can be stored can be searched with.
pub proof fn storable_tables_can_be_searched(tt: Map<TtKey, TtValue>)
    requires
        storable(tt),
    ensures
        in_range(tt),
{
    assert forall|k: TtKey| #[trigger] tt.contains_key(k) implies -1 <= tt[k].0 <= 1 by {
        assert(storable_value(tt[k]));
    }
}

/// The part of a table with at least `min` stones in hand.
pub open spec fn shallow_part(tt: Map<TtKey, TtValue>, min: int) -> Map<TtKey, TtValue> {
    Map::new(|k: TtKey| tt.contains_key(k) && k.1 + k.2 >= min, |k: TtKey| tt[k])
}

/// The table that the first `i` entries make.
spec fn prefix_part(tt: Map<TtKey, TtValue>, es: Seq<(u64, u8)>, i: int) -> Map<TtKey, TtValue> {
    Map::new(
        |k: TtKey| tt.contains_key(k) && exists|j: int| 0 <= j < i && #[trigger] es[j] == (stored_key(k), stored_value(tt[k])),
        |k: TtKey| tt[k],
    )
}

proof fn lemma_parse_back(order: ByteOrder, tt: Map<TtKey, TtValue>, min: int, es: Seq<(u64, u8)>, i: int)
    requires
        storable(tt),
        entries_of(tt, min, es),
        0 <= i <= es.len(),
    ensures
        parsed_entries(order, payload_of(order, es), i) == Parsed::Table(prefix_part(tt, es, i)),
    decreases i,
{
    if i == 0 {
        assert(prefix_part(tt, es, 0) =~= Map::<TtKey, TtValue>::empty());
    } else {
        lemma_parse_back(order, tt, min, es, i - 1);
        lemma_payload(order, es, i - 1);
        if i > 1 {
            lemma_payload(order, es, i - 2);
            assert(es[i - 2].0 < es[i - 1].0);
        }
        let x = es[i - 1];
        assert(es.contains(x));
        let k = choose|k: TtKey| #[trigger]
            tt.contains_key(k) && k.1 + k.2 >= min && x == (stored_key(k), stored_value(tt[k]));
        packing_round_trips(k, tt[k]);
        assert forall|j: TtKey| #[trigger] tt.contains_key(j) && es[i - 1] == (stored_key(j), stored_value(tt[j])) implies j == k by {
            packing_round_trips(j, tt[j]);
        }
        let (m, n) = (prefix_part(tt, es, i - 1), prefix_part(tt, es, i));
        assert forall|j: TtKey| n.contains_key(j) <==> #[trigger] m.insert(k, tt[k]).contains_key(j) by {
            if n.contains_key(j) {
                let l = choose|l: int| 0 <= l < i && #[trigger] es[l] == (stored_key(j), stored_value(tt[j]));
                if l < i - 1 {
                    assert(es[l] == (stored_key(j), stored_value(tt[j])));
                }
            }
            if m.contains_key(j) {
                let l = choose|l: int| 0 <= l < i - 1 && #[trigger] es[l] == (stored_key(j), stored_value(tt[j]));
                assert(0 <= l < i && es[l] == (stored_key(j), stored_value(tt[j])));
            }
            if j == k {
                assert(es[i - 1] == (stored_key(k), stored_value(tt[k])));
            }
        }
        assert(n =~= m.insert(k, tt[k]));
    }
}

/// A cache file reads back as the part of the table that was written, for the
/// database that it was written for.
pub proof fn cache_round_trips(
    order: ByteOrder,
    tt: Map<TtKey, TtValue>,
    min: int,
    es: Seq<(u64, u8)>,
    fingerprint: u64,
    hash: u64,
)
    requires
        storable(tt),
        entries_of(tt, min, es),
        32 + 9 * es.len() <= u64::MAX,
    ensures
        parsed(order, file_of(order, fingerprint, hash, es), fingerprint, hash) == Parsed::Table(shallow_part(tt, min)),
        payload_bytes(file_of(order, fingerprint, hash, es)) == payload_of(order, es),
{
    broadcast use numbers_round_trip;
    lemma_payload_len(order, es);
    let file = file_of(order, fingerprint, hash, es);
    let n = es.len() as u64;
    let (a, b, c) = (u64_bytes(order, fingerprint), u64_bytes(order, n), u64_bytes(order, hash));
    assert(file.len() == 32 + 9 * es.len());
    assert(file.take(8) =~= magic());
    assert(file.subrange(8, 16) =~= a);
    assert(file.subrange(16, 24) =~= b);
    assert(file.subrange(24, 32) =~= c);
    assert(file.skip(32) =~= payload_of(order, es));
    lemma_parse_back(order, tt, min, es, es.len() as int);
    let (m, s) = (prefix_part(tt, es, es.len() as int), shallow_part(tt, min));
    assert forall|k: TtKey| #[trigger] m.contains_key(k) <==> s.contains_key(k) by {
        let x = (stored_key(k), stored_value(tt[k]));
        if s.contains_key(k) {
            assert(es.contains(x));
            let j = choose|j: int| 0 <= j < es.len() && es[j] == x;
            assert(es[j] == x);
        }
        if m.contains_key(k) {
            let j = choose|j: int| 0 <= j < es.len() && #[trigger] es[j] == x;
            assert(es.contains(es[j]));
            let l = choose|l: TtKey| #[trigger]
                tt.contains_key(l) && l.1 + l.2 >= min && x == (stored_key(l), stored_value(tt[l]));
            packing_round_trips(k, tt[k]);
            packing_round_trips(l, tt[l]);
        }
    }
    assert(m =~= s);
}

/// What was written for a database is loaded for it, on a machine with the same
/// byte order.
pub proof fn written_caches_load(
    order: ByteOrder,
    entries: Seq<ManifestEntry>,
    tt: Map<TtKey, TtValue>,
    min: int,
    bytes: Seq<u8>,
    n: nat,
)
    requires
        storable(tt),
        is_cache(order, fingerprint_of(entries), tt, min, bytes, n),
        32 + 9 * n <= u64::MAX,
    ensures
        parsed_for(order, bytes, entries) == Parsed::Table(shallow_part(tt, min)),
{
    let fingerprint = fingerprint_of(entries);
    let es = choose|es: Seq<(u64, u8)>| #[trigger]
        entries_of(tt, min, es) && n == es.len() && bytes == file_of(
            order,
            fingerprint,
            xxh3_64_of(payload_of(order, es)),
            es,
        );
    cache_round_trips(order, tt, min, es, fingerprint, xxh3_64_of(payload_of(order, es)));
}

/// A file written for one database is stale for every database with another
/// fingerprint.
pub proof fn stale_caches_are_refused(order: ByteOrder, fingerprint: u64, other: u64, hash: u64, seen: u64, es: Seq<(u64, u8)>)
    requires
        fingerprint != other,
    ensures
        parsed(order, file_of(order, fingerprint, hash, es), other, seen) == Parsed::Stale,
{
    broadcast use numbers_round_trip;
    lemma_payload_len(order, es);
    let file = file_of(order, fingerprint, hash, es);
    let n = es.len() as u64;
    let (a, b, c) = (u64_bytes(order, fingerprint), u64_bytes(order, n), u64_bytes(order, hash));
    assert(file.len() == 32 + 9 * es.len());
    assert(file.take(8) =~= magic());
    assert(file.subrange(8, 16) =~= a);
}

/// What comes back from a cache file is as true as what was written.
pub proof fn cached_tables_stay_sound(db: &Database, tt: Map<TtKey, TtValue>, min: int)
    requires
        tt_sound(db, tt),
    ensures
        tt_sound(db, shallow_part(tt, min)),
{
    assert forall|k: TtKey| #[trigger] shallow_part(tt, min).contains_key(k) implies entry_sound(
        db,
        k,
        shallow_part(tt, min)[k],
    ) by {
        assert(tt.contains_key(k));
    }
}

/// The fingerprint goes by subspaces and checksums alone: sizes and solve
/// times do not matter.
pub proof fn fingerprint_goes_by_content(s: Seq<ManifestEntry>, t: Seq<ManifestEntry>)
    requires
        s.len() == t.len(),
        forall|i: int| 0 <= i < s.len() ==> same_content(#[trigger] s[i], #[trigger] t[i]),
    ensures
        fingerprint_of(s) == fingerprint_of(t),
{
    lemma_sorted_content(s, t);
    lemma_text_content(sorted_entries(s), sorted_entries(t));
}

/// Two entries for one subspace with one checksum.
pub open spec fn same_content(a: ManifestEntry, b: ManifestEntry) -> bool {
    a.w == b.w && a.b == b.b && a.xxh3@ == b.xxh3@
}

spec fn all_same_content(s: Seq<ManifestEntry>, t: Seq<ManifestEntry>) -> bool {
    &&& s.len() == t.len()
    &&& forall|i: int| 0 <= i < s.len() ==> same_content(#[trigger] s[i], #[trigger] t[i])
}

proof fn lemma_put_content(s: Seq<ManifestEntry>, t: Seq<ManifestEntry>, d: ManifestEntry, e: ManifestEntry)
    requires
        all_same_content(s, t),
        same_content(d, e),
    ensures
        all_same_content(put_sorted(s, d), put_sorted(t, e)),
    decreases s.len(),
{
    if s.len() > 0 {
        assert(same_content(s[s.len() - 1], t[t.len() - 1]));
        assert(all_same_content(s.drop_last(), t.drop_last()));
        lemma_put_content(s.drop_last(), t.drop_last(), d, e);
    }
}

proof fn lemma_sorted_content(s: Seq<ManifestEntry>, t: Seq<ManifestEntry>)
    requires
        all_same_content(s, t),
    ensures
        all_same_content(sorted_entries(s), sorted_entries(t)),
    decreases s.len(),
{
    if s.len() > 0 {
        assert(same_content(s[s.len() - 1], t[t.len() - 1]));
        assert(all_same_content(s.drop_last(), t.drop_last()));
        lemma_sorted_content(s.drop_last(), t.drop_last());
        lemma_put_content(sorted_entries(s.drop_last()), sorted_entries(t.drop_last()), s.last(), t.last());
    }
}

proof fn lemma_text_content(s: Seq<ManifestEntry>, t: Seq<ManifestEntry>)
    requires
        all_same_content(s, t),
    ensures
        entries_text(s) == entries_text(t),
    decreases s.len(),
{
    if s.len() > 0 {
        assert(same_content(s[s.len() - 1], t[t.len() - 1]));
        assert(all_same_content(s.drop_last(), t.drop_last()));
        lemma_text_content(s.drop_last(), t.drop_last());
    }
}

/// No two entries are for one subspace.
pub open spec fn distinct_subspaces(s: Seq<ManifestEntry>) -> bool {
    forall|i: int, j: int| 0 <= i < j < s.len() ==> !((#[trigger] s[i]).w == (#[trigger] s[j]).w && s[i].b == s[j].b)
}

spec fn in_order(s: Seq<ManifestEntry>) -> bool {
    forall|i: int, j: int| 0 <= i < j < s.len() ==> key_le(#[trigger] s[i], #[trigger] s[j])
}

proof fn lemma_put_sorted(s: Seq<ManifestEntry>, e: ManifestEntry)
    requires
        in_order(s),
    ensures
        in_order(put_sorted(s, e)),
        put_sorted(s, e).len() == s.len() + 1,
        forall|x: ManifestEntry| #[trigger] put_sorted(s, e).contains(x) <==> s.contains(x) || x == e,
    decreases s.len(),
{
    let p = put_sorted(s, e);
    if s.len() == 0 || key_le(s.last(), e) {
        assert forall|x: ManifestEntry| #[trigger] p.contains(x) <==> s.contains(x) || x == e by {
            lemma_push_contains(s, e, x);
        }
        assert forall|i: int, j: int| 0 <= i < j < p.len() implies key_le(#[trigger] p[i], #[trigger] p[j]) by {
            if j == s.len() && i < s.len() - 1 {
                assert(key_le(s[i], s[s.len() - 1]));
            }
        }
    } else {
        let r = s.drop_last();
        assert forall|i: int, j: int| 0 <= i < j < r.len() implies key_le(#[trigger] r[i], #[trigger] r[j]) by {
            assert(key_le(s[i], s[j]));
        }
        lemma_put_sorted(r, e);
        let q = put_sorted(r, e);
        assert forall|x: ManifestEntry| #[trigger] p.contains(x) <==> s.contains(x) || x == e by {
            lemma_push_contains(q, s.last(), x);
            lemma_push_contains(r, s.last(), x);
            assert(r.push(s.last()) =~= s);
        }
        assert forall|i: int, j: int| 0 <= i < j < p.len() implies key_le(#[trigger] p[i], #[trigger] p[j]) by {
            if j == q.len() {
                assert(q.contains(q[i]));
                if r.contains(q[i]) {
                    let k = choose|k: int| 0 <= k < r.len() && r[k] == q[i];
                    assert(key_le(s[k], s[s.len() - 1]));
                }
            } else {
                assert(key_le(q[i], q[j]));
            }
        }
    }
}

proof fn lemma_sorted_entries(s: Seq<ManifestEntry>)
    ensures
        in_order(sorted_entries(s)),
        sorted_entries(s).len() == s.len(),
        forall|x: ManifestEntry| #[trigger] sorted_entries(s).contains(x) <==> s.contains(x),
    decreases s.len(),
{
    if s.len() > 0 {
        let r = s.drop_last();
        lemma_sorted_entries(r);
        lemma_put_sorted(sorted_entries(r), s.last());
        assert forall|x: ManifestEntry| #[trigger] sorted_entries(s).contains(x) <==> s.contains(x) by {
            lemma_push_contains(r, s.last(), x);
            assert(r.push(s.last()) =~= s);
        }
    }
}

proof fn lemma_put_distinct(s: Seq<ManifestEntry>, e: ManifestEntry)
    requires
        in_order(s),
        distinct_subspaces(s.push(e)),
    ensures
        distinct_subspaces(put_sorted(s, e)),
    decreases s.len(),
{
    if s.len() > 0 && !key_le(s.last(), e) {
        let r = s.drop_last();
        let p = s.push(e);
        assert forall|i: int, j: int| 0 <= i < j < r.len() implies key_le(#[trigger] r[i], #[trigger] r[j]) by {
            assert(key_le(s[i], s[j]));
        }
        assert forall|i: int, j: int| 0 <= i < j < r.push(e).len() implies !((#[trigger] r.push(e)[i]).w == (#[trigger] r.push(
            e,
        )[j]).w && r.push(e)[i].b == r.push(e)[j].b) by {
            let l = if j == r.len() {
                s.len() as int
            } else {
                j
            };
            assert(p[i] == r.push(e)[i] && p[l] == r.push(e)[j]);
        }
        lemma_put_distinct(r, e);
        lemma_put_sorted(r, e);
        let q = put_sorted(r, e);
        let t = q.push(s.last());
        assert forall|i: int, j: int| 0 <= i < j < t.len() implies !((#[trigger] t[i]).w == (#[trigger] t[j]).w && t[i].b == t[j].b) by {
            if j == q.len() {
                assert(q.contains(q[i]));
                let last = s.len() - 1;
                if r.contains(q[i]) {
                    let k = choose|k: int| 0 <= k < r.len() && r[k] == q[i];
                    assert(p[k] == q[i] && p[last] == s.last());
                } else {
                    assert(p[last] == s.last() && p[s.len() as int] == e);
                }
            } else {
                assert(t[i] == q[i] && t[j] == q[j]);
            }
        }
    }
}

proof fn lemma_sorted_distinct(s: Seq<ManifestEntry>)
    requires
        distinct_subspaces(s),
    ensures
        distinct_subspaces(sorted_entries(s)),
    decreases s.len(),
{
    if s.len() > 0 {
        let r = s.drop_last();
        assert forall|i: int, j: int| 0 <= i < j < r.len() implies !((#[trigger] r[i]).w == (#[trigger] r[j]).w && r[i].b == r[j].b) by {
            assert(r[i] == s[i] && r[j] == s[j]);
        }
        lemma_sorted_distinct(r);
        lemma_sorted_entries(r);
        let q = sorted_entries(r);
        let p = q.push(s.last());
        assert forall|i: int, j: int| 0 <= i < j < p.len() implies !((#[trigger] p[i]).w == (#[trigger] p[j]).w && p[i].b == p[j].b) by {
            if j == q.len() {
                assert(q.contains(q[i]));
                let k = choose|k: int| 0 <= k < r.len() && r[k] == q[i];
                assert(s[k] == q[i] && s[s.len() - 1] == s.last());
            } else {
                assert(p[i] == q[i] && p[j] == q[j]);
            }
        }
        lemma_put_distinct(q, s.last());
    }
}

/// Two ordered lists of the same entries, for distinct subspaces, are one.
proof fn lemma_order_unique(s: Seq<ManifestEntry>, t: Seq<ManifestEntry>)
    requires
        in_order(s),
        in_order(t),
        distinct_subspaces(s),
        distinct_subspaces(t),
        s.len() == t.len(),
        forall|x: ManifestEntry| #[trigger] s.contains(x) <==> t.contains(x),
    ensures
        s == t,
    decreases s.len(),
{
    if s.len() > 0 {
        let n = s.len() - 1;
        assert(s.contains(s[n]) && t.contains(t[n]));
        assert(t.contains(s[n]) && s.contains(t[n]));
        let i = choose|i: int| 0 <= i < t.len() && t[i] == s[n];
        let j = choose|j: int| 0 <= j < s.len() && s[j] == t[n];
        if i != n && j != n {
            assert(key_le(t[i], t[n]) && key_le(s[j], s[n]));
            assert(s[j].w == s[n].w && s[j].b == s[n].b);
        }
        assert(s[n] == t[n]);
        let (a, b) = (s.drop_last(), t.drop_last());
        assert forall|x: ManifestEntry| #[trigger] a.contains(x) <==> b.contains(x) by {
            if a.contains(x) {
                let k = choose|k: int| 0 <= k < a.len() && a[k] == x;
                assert(s[k] == x);
                assert(s.contains(x));
                let l = choose|l: int| 0 <= l < t.len() && t[l] == x;
                assert(l != n);
                assert(b[l] == x);
            }
            if b.contains(x) {
                let k = choose|k: int| 0 <= k < b.len() && b[k] == x;
                assert(t[k] == x);
                assert(t.contains(x));
                assert(s.contains(x));
                let l = choose|l: int| 0 <= l < s.len() && s[l] == x;
                assert(l != n);
                assert(a[l] == x);
            }
        }
        assert forall|i: int, j: int| 0 <= i < j < a.len() implies key_le(#[trigger] a[i], #[trigger] a[j]) && key_le(b[i], b[j]) by {
            assert(key_le(s[i], s[j]) && key_le(t[i], t[j]));
        }
        assert(in_order(b)) by {
            assert forall|i: int, j: int| 0 <= i < j < b.len() implies key_le(#[trigger] b[i], #[trigger] b[j]) by {
                assert(key_le(t[i], t[j]));
            }
        }
        assert(distinct_subspaces(a) && distinct_subspaces(b)) by {
            assert forall|i: int, j: int| 0 <= i < j < a.len() implies !((#[trigger] a[i]).w == (#[trigger] a[j]).w && a[i].b == a[j].b) by {
                assert(a[i] == s[i] && a[j] == s[j]);
            }
            assert forall|i: int, j: int| 0 <= i < j < b.len() implies !((#[trigger] b[i]).w == (#[trigger] b[j]).w && b[i].b == b[j].b) by {
                assert(b[i] == t[i] && b[j] == t[j]);
            }
        }
        lemma_order_unique(a, b);
        assert(s =~= a.push(s[n]) && t =~= b.push(t[n]));
    }
}

/// The fingerprint does not depend on the order of the entries.
pub proof fn fingerprint_is_order_independent(s: Seq<ManifestEntry>, t: Seq<ManifestEntry>)
    requires
        distinct_subspaces(s),
        distinct_subspaces(t),
        s.len() == t.len(),
        forall|x: ManifestEntry| #[trigger] s.contains(x) <==> t.contains(x),
    ensures
        fingerprint_of(s) == fingerprint_of(t),
{
    lemma_sorted_entries(s);
    lemma_sorted_entries(t);
    lemma_sorted_distinct(s);
    lemma_sorted_distinct(t);
    let (a, b) = (sorted_entries(s), sorted_entries(t));
    assert forall|x: ManifestEntry| #[trigger] a.contains(x) <==> b.contains(x) by {
        assert(a.contains(x) <==> s.contains(x));
        assert(b.contains(x) <==> t.contains(x));
    }
    lemma_order_unique(a, b);
}

/// A key is stored in its bits: the packed board in the lowest 48, then the mover's hand
/// in four, then the opponent's in four, and nothing above.
pub proof fn keys_are_stored_in_their_bits(k: TtKey)
    requires
        storable_key(k),
    ensures
        stored_key(k) % 0x1_0000_0000_0000 == k.0.0,
        stored_key(k) / 0x1_0000_0000_0000 % 16 == k.1,
        stored_key(k) / 0x10_0000_0000_0000 == k.2,
{
    let n = stored_key(k) as int;
    let (p, m, o) = (k.0.0 as int, k.1 as int, k.2 as int);
    assert(n == p + (m + 16 * o) * 0x1_0000_0000_0000);
    vstd::arithmetic::div_mod::lemma_fundamental_div_mod_converse(n, 0x1_0000_0000_0000, m + 16 * o, p);
    assert(n == (p + m * 0x1_0000_0000_0000) + o * 0x10_0000_0000_0000);
    vstd::arithmetic::div_mod::lemma_fundamental_div_mod_converse(
        n,
        0x10_0000_0000_0000,
        o,
        p + m * 0x1_0000_0000_0000,
    );
}

/// A value is stored in its bits: one more than the value in the lowest two, and the kind
/// of bound above. Other bytes stand for nothing.
pub proof fn values_are_stored_in_their_bits(e: TtValue, n: u8)
    requires
        storable_value(e),
    ensures
        stored_value(e) % 4 == e.0 + 1,
        stored_value(e) / 4 == match e.1 {
            Bound::Exact => 0int,
            Bound::Lower => 1,
            Bound::Upper => 2,
        },
        value_from(n) matches Some(x) ==> stored_value(x) == n && storable_value(x),
{
}

/// A key that can be read is stored as what it was read from, and is proper.
pub proof fn keys_read_back(n: u64)
    ensures
        key_from(n) matches Some(k) ==> storable_key(k) && stored_key(k) == n,
{
    if let Some(k) = key_from(n) {
        let white = (n % 0x100_0000) as u32;
        let black = (n / 0x100_0000 % 0x100_0000) as u32;
        crate::pos::lemma_pack(white, black);
        lemma_packed_number(k.0);
        let p = k.0.0;
        assert(p < 0x1_0000_0000_0000);
        assert(p % 0x100_0000 == white && p / 0x100_0000 % 0x100_0000 == black);
        assert(p as int == white + 0x100_0000 * black);
        let q = (n % 0x1_0000_0000_0000) as int;
        assert(n % 0x1_0000_0000_0000 == n % 0x100_0000 + 0x100_0000 * (n / 0x100_0000 % 0x100_0000));
        assert(n as int == q + 0x1_0000_0000_0000 * (n as int / 0x1_0000_0000_0000));
        let h = n as int / 0x1_0000_0000_0000;
        assert(n as int / 0x10_0000_0000_0000 == h / 16);
        assert(h < 256);
    }
}

/// A file that is loaded is whole: it begins with the magic bytes, was made for this
/// database, has the length that its entry count asks for, has the checksum that it
/// says, and its keys go up.
pub proof fn loaded_files_are_whole(order: ByteOrder, bytes: Seq<u8>, fingerprint: u64, hash: u64)
    requires
        parsed(order, bytes, fingerprint, hash) is Table,
    ensures
        bytes.len() >= 32,
        bytes.take(8) == seq![0x4eu8, 0x4d, 0x4d, 0x4f, 0x50, 0x45, 0x4e, 0x31],
        bytes_u64(order, bytes.subrange(8, 16)) == fingerprint,
        bytes.len() == 32 + 9 * bytes_u64(order, bytes.subrange(16, 24)),
        bytes_u64(order, bytes.subrange(24, 32)) == hash,
        forall|i: int|
            0 < i && 32 + 9 * i < bytes.len() ==> bytes_u64(order, bytes.subrange(32 + 9 * (i - 1), 32 + 9 * (i - 1) + 8))
                < bytes_u64(order, #[trigger] bytes.subrange(32 + 9 * i, 32 + 9 * i + 8)),
{
    let n = u64_at(order, bytes, 16) as int;
    let payload = bytes.skip(32);
    assert forall|i: int| 0 < i && 32 + 9 * i < bytes.len() implies bytes_u64(
        order,
        bytes.subrange(32 + 9 * (i - 1), 32 + 9 * (i - 1) + 8),
    ) < bytes_u64(order, #[trigger] bytes.subrange(32 + 9 * i, 32 + 9 * i + 8)) by {
        lemma_good_so_far(order, payload, i + 1, n);
        assert(payload.subrange(9 * i, 9 * i + 8) =~= bytes.subrange(32 + 9 * i, 32 + 9 * i + 8));
        assert(payload.subrange(9 * (i - 1), 9 * (i - 1) + 8) =~= bytes.subrange(32 + 9 * (i - 1), 32 + 9 * (i - 1) + 8));
    }
}

/// Entries that make a table make one all the way.
proof fn lemma_good_so_far(order: ByteOrder, payload: Seq<u8>, i: int, n: int)
    requires
        0 <= i <= n,
        parsed_entries(order, payload, n) is Table,
    ensures
        parsed_entries(order, payload, i) is Table,
    decreases n - i,
{
    if i < n {
        lemma_good_so_far(order, payload, i, n - 1);
    }
}

/// What is loaded is what the entries say: each entry is in the table, and each key of the
/// table is of an entry.
pub proof fn loaded_tables_hold_the_entries(order: ByteOrder, payload: Seq<u8>, n: int, k: TtKey)
    requires
        0 <= n,
        parsed_entries(order, payload, n) is Table,
    ensures
        ({
            let m = parsed_entries(order, payload, n)->Table_0;
            let at = |i: int| bytes_u64(order, payload.subrange(9 * i, 9 * i + 8));
            m.contains_key(k) <==> exists|i: int|
                0 <= i < n && stored_key(k) == #[trigger] at(i) && storable_key(k) && value_from(payload[9 * i + 8])
                    == Some(m[k])
        }),
    decreases n,
{
    let at = |i: int| bytes_u64(order, payload.subrange(9 * i, 9 * i + 8));
    let m = parsed_entries(order, payload, n)->Table_0;
    if n > 0 {
        lemma_good_so_far(order, payload, n - 1, n);
        let r = parsed_entries(order, payload, n - 1)->Table_0;
        let key = u64_at(order, payload, 9 * (n - 1));
        let (j, e) = (key_from(key)->0, value_from(payload[9 * (n - 1) + 8])->0);
        assert(m == r.insert(j, e));
        keys_read_back(key);
        assert(at(n - 1) == key);
        loaded_tables_hold_the_entries(order, payload, n - 1, k);
        loaded_tables_hold_the_entries(order, payload, n - 1, j);
        if k == j {
            assert(stored_key(k) == at(n - 1));
        } else {
            if r.contains_key(k) {
                let i = choose|i: int|
                    0 <= i < n - 1 && stored_key(k) == #[trigger] at(i) && storable_key(k) && value_from(
                        payload[9 * i + 8],
                    ) == Some(r[k]);
                assert(stored_key(k) == at(i));
            }
            if exists|i: int|
                0 <= i < n && stored_key(k) == #[trigger] at(i) && storable_key(k) && value_from(payload[9 * i + 8]) == Some(
                    m[k],
                ) {
                let i = choose|i: int|
                    0 <= i < n && stored_key(k) == #[trigger] at(i) && storable_key(k) && value_from(payload[9 * i + 8])
                        == Some(m[k]);
                if i == n - 1 {
                    lemma_stored_key_injective(k, j);
                }
            }
        }
    }
}

/// What is kept of a table is the entries with at least so many stones in hand, as they
/// were.
pub proof fn shallow_entries_are_kept(tt: Map<TtKey, TtValue>, min: int, k: TtKey)
    ensures
        shallow_part(tt, min).contains_key(k) <==> tt.contains_key(k) && k.1 + k.2 >= min,
        shallow_part(tt, min).contains_key(k) ==> shallow_part(tt, min)[k] == tt[k],
{
}

/// The same subspaces, in the same places, with checksums of the same lengths.
pub open spec fn same_shape(s: Seq<ManifestEntry>, t: Seq<ManifestEntry>) -> bool {
    &&& s.len() == t.len()
    &&& forall|i: int|
        0 <= i < s.len() ==> (#[trigger] s[i]).w == (#[trigger] t[i]).w && s[i].b == t[i].b && s[i].xxh3@.len()
            == t[i].xxh3@.len()
}

proof fn lemma_put_shape(s: Seq<ManifestEntry>, t: Seq<ManifestEntry>, d: ManifestEntry, e: ManifestEntry)
    requires
        same_shape(s, t),
        d.w == e.w,
        d.b == e.b,
        d.xxh3@.len() == e.xxh3@.len(),
    ensures
        same_shape(put_sorted(s, d), put_sorted(t, e)),
        all_same_content(put_sorted(s, d), put_sorted(t, e)) ==> all_same_content(s, t) && same_content(d, e),
    decreases s.len(),
{
    let (x, y) = (put_sorted(s, d), put_sorted(t, e));
    if s.len() > 0 {
        let n = s.len() - 1;
        assert(s[n].w == t[n].w && s[n].b == t[n].b);
        assert(same_shape(s.drop_last(), t.drop_last())) by {
            assert forall|i: int| 0 <= i < n implies (#[trigger] s.drop_last()[i]).w == (#[trigger] t.drop_last()[i]).w
                && s.drop_last()[i].b == t.drop_last()[i].b && s.drop_last()[i].xxh3@.len()
                == t.drop_last()[i].xxh3@.len() by {
                assert(s[i].w == t[i].w);
            }
        }
        if !key_le(s.last(), d) {
            let (u, v) = (put_sorted(s.drop_last(), d), put_sorted(t.drop_last(), e));
            lemma_put_shape(s.drop_last(), t.drop_last(), d, e);
            assert(x == u.push(s.last()) && y == v.push(t.last()));
            if all_same_content(x, y) {
                assert forall|i: int| 0 <= i < u.len() implies same_content(#[trigger] u[i], #[trigger] v[i]) by {
                    assert(same_content(x[i], y[i]));
                }
                assert(same_content(x[u.len() as int], y[v.len() as int]));
                assert forall|i: int| 0 <= i < s.len() implies same_content(#[trigger] s[i], #[trigger] t[i]) by {
                    if i < n {
                        assert(same_content(s.drop_last()[i], t.drop_last()[i]));
                    }
                }
            }
        } else {
            assert(x == s.push(d) && y == t.push(e));
            lemma_push_shape(s, t, d, e);
        }
    } else {
        assert(x == s.push(d) && y == t.push(e));
        lemma_push_shape(s, t, d, e);
    }
}

proof fn lemma_push_shape(s: Seq<ManifestEntry>, t: Seq<ManifestEntry>, d: ManifestEntry, e: ManifestEntry)
    requires
        same_shape(s, t),
        d.w == e.w,
        d.b == e.b,
        d.xxh3@.len() == e.xxh3@.len(),
    ensures
        same_shape(s.push(d), t.push(e)),
        all_same_content(s.push(d), t.push(e)) ==> all_same_content(s, t) && same_content(d, e),
{
    let (x, y) = (s.push(d), t.push(e));
    if all_same_content(x, y) {
        assert(same_content(x[s.len() as int], y[t.len() as int]));
        assert forall|i: int| 0 <= i < s.len() implies same_content(#[trigger] s[i], #[trigger] t[i]) by {
            assert(same_content(x[i], y[i]));
        }
    }
}

proof fn lemma_sorted_shape(s: Seq<ManifestEntry>, t: Seq<ManifestEntry>)
    requires
        same_shape(s, t),
    ensures
        same_shape(sorted_entries(s), sorted_entries(t)),
        all_same_content(sorted_entries(s), sorted_entries(t)) ==> all_same_content(s, t),
    decreases s.len(),
{
    if s.len() > 0 {
        let n = s.len() - 1;
        let (u, v) = (s.drop_last(), t.drop_last());
        assert forall|i: int| 0 <= i < n implies (#[trigger] u[i]).w == (#[trigger] v[i]).w && u[i].b == v[i].b
            && u[i].xxh3@.len() == v[i].xxh3@.len() by {
            assert(s[i].w == t[i].w);
        }
        lemma_sorted_shape(u, v);
        assert(s[n].w == t[n].w && s[n].b == t[n].b && s[n].xxh3@.len() == t[n].xxh3@.len());
        lemma_put_shape(sorted_entries(u), sorted_entries(v), s.last(), t.last());
        if all_same_content(sorted_entries(s), sorted_entries(t)) {
            assert forall|i: int| 0 <= i < s.len() implies same_content(#[trigger] s[i], #[trigger] t[i]) by {
                if i < n {
                    assert(same_content(u[i], v[i]));
                }
            }
        }
    }
}

proof fn lemma_text_tells(s: Seq<ManifestEntry>, t: Seq<ManifestEntry>)
    requires
        same_shape(s, t),
        entries_text(s) == entries_text(t),
    ensures
        all_same_content(s, t),
    decreases s.len(),
{
    if s.len() > 0 {
        let n = s.len() - 1;
        let (u, v) = (s.drop_last(), t.drop_last());
        let (d, e) = (s.last(), t.last());
        assert(s[n].w == t[n].w && s[n].b == t[n].b && s[n].xxh3@.len() == t[n].xxh3@.len());
        assert forall|i: int| 0 <= i < n implies (#[trigger] u[i]).w == (#[trigger] v[i]).w && u[i].b == v[i].b
            && u[i].xxh3@.len() == v[i].xxh3@.len() by {
            assert(s[i].w == t[i].w);
        }
        let (x, y) = (entry_text(d), entry_text(e));
        let (p, q) = (entries_text(u), entries_text(v));
        assert(x.len() == y.len());
        assert(p + x == q + y);
        assert((p + x).len() == (q + y).len());
        assert(p =~= (p + x).take(p.len() as int));
        assert(q =~= (q + y).take(q.len() as int));
        assert(x =~= (p + x).skip(p.len() as int));
        assert(y =~= (q + y).skip(q.len() as int));
        lemma_text_tells(u, v);
        let head = decimal(d.w as nat) + "-"@ + decimal(d.b as nat) + ":"@;
        let m = head.len() as int;
        assert(d.xxh3@ =~= x.subrange(m, m + d.xxh3@.len()));
        assert(e.xxh3@ =~= y.subrange(m, m + e.xxh3@.len()));
        assert forall|i: int| 0 <= i < s.len() implies same_content(#[trigger] s[i], #[trigger] t[i]) by {
            if i < n {
                assert(same_content(u[i], v[i]));
            }
        }
    }
}

/// A changed value file changes the text that is hashed: two manifests of the same
/// subspaces, with checksums of one length, have the same text only if all checksums are
/// the same.
pub proof fn changed_checksums_change_the_text(s: Seq<ManifestEntry>, t: Seq<ManifestEntry>, i: int)
    requires
        same_shape(s, t),
        fingerprint_text(s) == fingerprint_text(t),
        0 <= i < s.len(),
    ensures
        s[i].xxh3@ == t[i].xxh3@,
{
    lemma_sorted_shape(s, t);
    lemma_text_tells(sorted_entries(s), sorted_entries(t));
    assert(same_content(s[i], t[i]));
}

/// Which numbers are keys: those whose board has no point with two stones, with at most
/// nine stones in each hand and nothing in the bits above. The key is what the bits say.
pub proof fn proper_numbers_are_keys(n: u64)
    ensures
        key_from(n) is Some <==> {
            &&& n < 0x100_0000_0000_0000
            &&& disjoint((n % 0x100_0000) as u32, (n / 0x100_0000 % 0x100_0000) as u32)
            &&& n / 0x1_0000_0000_0000 % 16 <= 9
            &&& n / 0x10_0000_0000_0000 % 16 <= 9
        },
        key_from(n) matches Some(k) ==> {
            &&& k.0.w() == n % 0x100_0000
            &&& k.0.b() == n / 0x100_0000 % 0x100_0000
            &&& k.1 == n / 0x1_0000_0000_0000 % 16
            &&& k.2 == n / 0x10_0000_0000_0000 % 16
        },
{
    crate::pos::lemma_pack((n % 0x100_0000) as u32, (n / 0x100_0000 % 0x100_0000) as u32);
}

/// Which bytes are values: 0, 1 and 2 for a loss, a draw and a win, and 5 and 9 for a draw
/// at least and at most.
pub proof fn five_bytes_are_values(n: u8)
    ensures
        value_from(n) is Some <==> n == 0 || n == 1 || n == 2 || n == 5 || n == 9,
        value_from(n) matches Some(e) ==> e.0 == n % 4 - 1 && (n / 4 == 0 <==> e.1 == Bound::Exact) && (n / 4 == 1 <==> e.1
            == Bound::Lower) && (n / 4 == 2 <==> e.1 == Bound::Upper),
{
}

/// Sorting keeps the entries: nothing is added.
proof fn lemma_sorted_members(s: Seq<ManifestEntry>, i: int)
    requires
        0 <= i < sorted_entries(s).len(),
    ensures
        s.contains(sorted_entries(s)[i]),
        sorted_entries(s).len() == s.len(),
    decreases s.len(),
{
    if s.len() > 0 {
        let r = s.drop_last();
        lemma_put_members(sorted_entries(r), s.last(), i);
        let x = sorted_entries(s)[i];
        assert(s[s.len() - 1] == s.last());
        if sorted_entries(r).len() > 0 {
            lemma_sorted_members(r, 0);
        } else {
            lemma_sorted_len(r);
        }
        if x != s.last() {
            let j = sorted_entries(r).index_of(x);
            lemma_sorted_members(r, j);
            let k = r.index_of(x);
            assert(s[k] == x);
        }
    }
}

proof fn lemma_sorted_len(s: Seq<ManifestEntry>)
    ensures
        sorted_entries(s).len() == s.len(),
    decreases s.len(),
{
    if s.len() > 0 {
        lemma_sorted_len(s.drop_last());
        lemma_put_members(sorted_entries(s.drop_last()), s.last(), 0);
    }
}

proof fn lemma_put_members(s: Seq<ManifestEntry>, e: ManifestEntry, i: int)
    ensures
        put_sorted(s, e).len() == s.len() + 1,
        0 <= i <= s.len() ==> put_sorted(s, e)[i] == e || s.contains(put_sorted(s, e)[i]),
    decreases s.len(),
{
    let l = put_sorted(s, e);
    if s.len() == 0 || key_le(s.last(), e) {
        if 0 <= i < s.len() {
            assert(l[i] == s[i]);
        }
    } else {
        let r = s.drop_last();
        lemma_put_members(r, e, i);
        if i == s.len() {
            assert(l[i] == s[s.len() - 1]);
        } else if 0 <= i < s.len() {
            assert(l[i] == put_sorted(r, e)[i]);
            if l[i] != e {
                let j = r.index_of(l[i]);
                assert(s[j] == l[i]);
            }
        }
    }
}

/// The text that is hashed: the subspaces in order, each with its checksum.
pub proof fn the_hashed_text_lists_the_subspaces(l: Seq<ManifestEntry>, e: ManifestEntry)
    requires
        forall|i: int| 0 <= i < l.len() ==> (#[trigger] l[i]).w < e.w || l[i].w == e.w && l[i].b < e.b,
    ensures
        fingerprint_text(Seq::empty()) == Seq::<char>::empty(),
        fingerprint_text(l.push(e)) == fingerprint_text(l) + (decimal(e.w as nat) + "-"@ + decimal(e.b as nat) + ":"@
            + e.xxh3@ + ";"@),
{
    let s = sorted_entries(l);
    lemma_sorted_len(l);
    assert(l.push(e).drop_last() =~= l);
    if s.len() > 0 {
        lemma_sorted_members(l, s.len() - 1);
        let j = l.index_of(s.last());
        assert(l[j] == s.last());
        assert(key_le(s.last(), e));
    }
    assert(put_sorted(s, e) == s.push(e));
    assert(s.push(e).drop_last() =~= s);
}

} // verus!
