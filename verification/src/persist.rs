//! The on-disk format: one file per ordered subspace, and a manifest with
//! sizes, checksums and solve times.
//!
//! A value file is a plain array of little-endian 16-bit codes, one per slot.

use vstd::arithmetic::power::pow;
use vstd::prelude::*;

pub use crate::mapped::{get_u16, mmap_get_u16};
use crate::mapped::{mmap_contents, mmap_slice, u16s};
use crate::text::{
    decimal, digit_char, hex_number_of, hexadecimal, hexadecimals_read_back, push_decimal, push_hex,
    push_text,
};

verus! {

/// The XXH3 64-bit hash of a byte sequence.
pub uninterp spec fn xxh3_64_of(data: Seq<u8>) -> u64;

/// `xxhash_rust::xxh3::xxh3_64`: the contract claims that the hash depends on
/// the bytes alone, and gives it a name; it does not say which number it is.
#[verifier::external_body]
pub(crate) fn xxh3_64(data: &[u8]) -> (h: u64)
    ensures
        h == xxh3_64_of(data@),
{
    xxhash_rust::xxh3::xxh3_64(data)
}

/// What the manifest says of one value file.
#[derive(Clone, Debug)]
pub struct ManifestEntry {
    pub w: u8,
    pub b: u8,
    pub size: u64,
    pub xxh3: String,
    pub solved_at_unix: u64,
}

impl ManifestEntry {
    /// The entry is that of subspace `(w, b)`.
    pub open spec fn is_for(self, w: int, b: int) -> bool {
        self.w == w && self.b == b
    }
}

/// The list of value files.
#[derive(Debug)]
pub struct Manifest {
    pub entries: Vec<ManifestEntry>,
}

impl Default for Manifest {
    fn default() -> (m: Self)
        ensures
            m.entries@ == Seq::<ManifestEntry>::empty(),
    {
        Manifest { entries: Vec::new() }
    }
}

/// The entries that are not for subspace `(w, b)`, in order.
pub open spec fn others(entries: Seq<ManifestEntry>, w: int, b: int) -> Seq<ManifestEntry>
    decreases entries.len(),
{
    if entries.len() == 0 {
        Seq::empty()
    } else if entries.last().is_for(w, b) {
        others(entries.drop_last(), w, b)
    } else {
        others(entries.drop_last(), w, b).push(entries.last())
    }
}

/// The first entry for subspace `(w, b)`.
pub open spec fn lookup(entries: Seq<ManifestEntry>, w: int, b: int) -> Option<ManifestEntry>
    decreases entries.len(),
{
    if entries.len() == 0 {
        None
    } else {
        match lookup(entries.drop_last(), w, b) {
            Some(e) => Some(e),
            None => if entries.last().is_for(w, b) {
                Some(entries.last())
            } else {
                None
            },
        }
    }
}

impl Manifest {
    /// The first entry for subspace `(w, b)`.
    pub fn find(&self, w: usize, b: usize) -> (r: Option<&ManifestEntry>)
        ensures
            match r {
                Some(e) => lookup(self.entries@, w as int, b as int) == Some(*e),
                None => lookup(self.entries@, w as int, b as int) is None,
            },
    {
        let ghost l = self.entries@;
        let mut i: usize = 0;
        while i < self.entries.len()
            invariant
                i <= self.entries.len(),
                l == self.entries@,
                lookup(l.take(i as int), w as int, b as int) is None,
            decreases self.entries.len() - i,
        {
            let e: &ManifestEntry = &self.entries[i];
            proof {
                assert(l.take(i + 1).drop_last() =~= l.take(i as int));
            }
            if e.w as usize == w && e.b as usize == b {
                proof {
                    lemma_lookup_take(l, w as int, b as int, i + 1);
                }
                return Some(e);
            }
            i = i + 1;
        }
        assert(l.take(i as int) =~= l);
        None
    }

    /// Puts an entry at the end, in place of any for the same subspace.
    pub fn upsert(&mut self, entry: ManifestEntry)
        ensures
            final(self).entries@ == upserted(old(self).entries@, entry),
    {
        let ghost (w, b) = (entry.w as int, entry.b as int);
        let ghost before = self.entries@;
        let mut i: usize = 0;
        let ghost mut k: int = 0;
        while i < self.entries.len()
            invariant
                0 <= i <= self.entries.len(),
                0 <= k <= before.len(),
                w == entry.w,
                b == entry.b,
                self.entries@.take(i as int) == others(before.take(k), w, b),
                self.entries@.skip(i as int) == before.skip(k),
            decreases self.entries.len() - i,
        {
            let ghost cur = self.entries@;
            proof {
                assert(cur.skip(i as int).len() == before.skip(k).len());
                assert(cur.skip(i as int)[0] == before.skip(k)[0]);
                assert(before.take(k + 1).drop_last() =~= before.take(k));
                assert(before.take(k + 1).last() == cur[i as int]);
                assert(before.skip(k + 1) =~= before.skip(k).skip(1));
                assert(cur.skip(i + 1) =~= cur.skip(i as int).skip(1));
            }
            if self.entries[i].w == entry.w && self.entries[i].b == entry.b {
                let _ = self.entries.remove(i);
                proof {
                    assert(self.entries@.take(i as int) =~= cur.take(i as int));
                    assert(self.entries@.skip(i as int) =~= cur.skip(i + 1));
                }
            } else {
                i = i + 1;
                proof {
                    assert(self.entries@.take(i as int) =~= cur.take(i - 1).push(cur[i - 1]));
                }
            }
            proof {
                k = k + 1;
            }
        }
        proof {
            assert(self.entries@.skip(i as int).len() == 0);
            assert(before.skip(k).len() == 0);
            assert(before.take(k) =~= before);
            assert(self.entries@.take(i as int) =~= self.entries@);
        }
        self.entries.push(entry);
    }
}

/// What is found in the first `n` entries is what is found.
proof fn lemma_lookup_take(l: Seq<ManifestEntry>, w: int, b: int, n: int)
    requires
        0 <= n <= l.len(),
        lookup(l.take(n), w, b) is Some,
    ensures
        lookup(l, w, b) == lookup(l.take(n), w, b),
    decreases l.len(),
{
    if n < l.len() {
        assert(l.drop_last().take(n) =~= l.take(n));
        lemma_lookup_take(l.drop_last(), w, b, n);
    } else {
        assert(l.take(n) =~= l);
    }
}

/// Taking the entries for one subspace out leaves what is found for the others.
pub proof fn lemma_lookup_others(entries: Seq<ManifestEntry>, x: int, y: int, w: int, b: int)
    ensures
        lookup(others(entries, x, y), w, b) == (if x == w && y == b {
            None
        } else {
            lookup(entries, w, b)
        }),
    decreases entries.len(),
{
    if entries.len() > 0 {
        let r = others(entries.drop_last(), x, y);
        lemma_lookup_others(entries.drop_last(), x, y, w, b);
        assert(r.push(entries.last()).drop_last() =~= r);
    }
}

/// The entries after `entry` was put in.
pub open spec fn upserted(entries: Seq<ManifestEntry>, entry: ManifestEntry) -> Seq<ManifestEntry> {
    others(entries, entry.w as int, entry.b as int).push(entry)
}

/// After an entry is put in, it is the one found for its subspace; what is
/// found for the other subspaces stays.
pub proof fn upsert_then_find(entries: Seq<ManifestEntry>, entry: ManifestEntry, w: int, b: int)
    ensures
        lookup(upserted(entries, entry), w, b) == (if entry.is_for(w, b) {
            Some(entry)
        } else {
            lookup(entries, w, b)
        }),
{
    let l = others(entries, entry.w as int, entry.b as int);
    lemma_lookup_others(entries, entry.w as int, entry.b as int, w, b);
    assert(l.push(entry).drop_last() =~= l);
}

/// The file name of subspace `(w, b)`.
pub open spec fn file_name(w: nat, b: nat) -> Seq<char> {
    "wdl_"@ + decimal(w) + "_"@ + decimal(b) + ".bin"@
}

/// The name, in the database directory, of the value file of a subspace.
pub fn subspace_path(w: usize, b: usize) -> (s: String)
    ensures
        s@ == file_name(w as nat, b as nat),
{
    let mut s: String = String::new();
    push_text(&mut s, "wdl_");
    push_decimal(&mut s, w as u64);
    push_text(&mut s, "_");
    push_decimal(&mut s, b as u64);
    push_text(&mut s, ".bin");
    assert(s@ =~= file_name(w as nat, b as nat));
    s
}

/// The bytes of an array of codes, each little-endian.
pub open spec fn bytes_of(data: Seq<u16>) -> Seq<u8> {
    Seq::new(
        2 * data.len(),
        |i: int|
            if i % 2 == 0 {
                (data[i / 2] % 256) as u8
            } else {
                (data[i / 2] / 256) as u8
            },
    )
}

/// The bytes of an array of codes.
pub fn as_bytes(data: &Vec<u16>) -> (bytes: Vec<u8>)
    ensures
        bytes@ == bytes_of(data@),
{
    let mut bytes: Vec<u8> = Vec::new();
    let mut i: usize = 0;
    while i < data.len()
        invariant
            i <= data.len(),
            bytes@ == bytes_of(data@.take(i as int)),
        decreases data.len() - i,
    {
        let v: u16 = data[i];
        bytes.push((v % 256) as u8);
        bytes.push((v / 256) as u8);
        assert(bytes@ =~= bytes_of(data@.take(i + 1)));
        i = i + 1;
    }
    assert(data@.take(i as int) =~= data@);
    bytes
}

/// What can be wrong with a value file.
#[derive(Debug)]
pub enum PersistError {
    /// The manifest has no entry for the subspace.
    NoEntry,
    /// The length of the file, which is odd.
    OddLength(usize),
    /// The numbers of codes in the file and in the manifest.
    SizeMismatch(u64, u64),
    /// The checksums of the file and in the manifest.
    ChecksumMismatch(String, String),
}

/// The codes that a byte sequence holds.
pub fn bytes_to_u16_vec(bytes: &[u8]) -> (r: Result<Vec<u16>, PersistError>)
    ensures
        match r {
            Ok(v) => bytes@.len() % 2 == 0 && v@ == u16s(bytes@),
            Err(e) => bytes@.len() % 2 == 1 && e == PersistError::OddLength(bytes@.len() as usize),
        },
{
    let len: usize = bytes.len();
    if len % 2 != 0 {
        return Err(PersistError::OddLength(len));
    }
    let mut v: Vec<u16> = Vec::new();
    let mut i: usize = 0;
    while i < len / 2
        invariant
            i <= len / 2,
            len == bytes@.len(),
            v@ == u16s(bytes@).take(i as int),
        decreases len / 2 - i,
    {
        v.push(get_u16(bytes, i));
        assert(v@ =~= u16s(bytes@).take(i + 1));
        i = i + 1;
    }
    assert(u16s(bytes@).take(i as int) =~= u16s(bytes@));
    Ok(v)
}

/// Reading back what was written gives the codes.
pub proof fn bytes_round_trip(data: Seq<u16>)
    ensures
        bytes_of(data).len() % 2 == 0,
        u16s(bytes_of(data)) == data,
{
    let bytes = bytes_of(data);
    assert forall|i: int| 0 <= i < data.len() implies u16s(bytes)[i] == data[i] by {
        assert(bytes[2 * i] == (data[i] % 256) as u8);
        assert(bytes[2 * i + 1] == (data[i] / 256) as u8);
    }
    assert(u16s(bytes) =~= data);
}

/// The checksum of a byte sequence, as 16 hexadecimal digits.
pub open spec fn checksum(bytes: Seq<u8>) -> Seq<char> {
    hexadecimal(xxh3_64_of(bytes) as nat, 16)
}

/// A hash as 16 lower-case hexadecimal digits.
pub fn hash_text(h: u64) -> (s: String)
    ensures
        s@ == hexadecimal(h as nat, 16),
{
    let mut s: String = String::new();
    push_hex(&mut s, h, 16);
    assert(s@ =~= hexadecimal(h as nat, 16));
    s
}

/// The checksum of an array of codes.
pub fn xxh3_of(data: &Vec<u16>) -> (s: String)
    ensures
        s@ == checksum(bytes_of(data@)),
{
    let bytes: Vec<u8> = as_bytes(data);
    hash_text(xxh3_64(bytes.as_slice()))
}

/// The manifest entry for an array of codes, solved at the given time.
pub fn new_entry(w: usize, b: usize, data: &Vec<u16>, solved_at_unix: u64) -> (e: ManifestEntry)
    ensures
        e.w == w as u8,
        e.b == b as u8,
        e.size == data@.len(),
        e.xxh3@ == checksum(bytes_of(data@)),
        e.solved_at_unix == solved_at_unix,
{
    ManifestEntry { w: w as u8, b: b as u8, size: data.len() as u64, xxh3: xxh3_of(data), solved_at_unix }
}

/// Whether a byte sequence with hash `hash` is the value file that `entry`
/// describes: of whole codes, of the right number, with the right checksum.
pub fn check_bytes(entry: &ManifestEntry, len: usize, hash: u64) -> (r: Result<(), PersistError>)
    ensures
        match r {
            Ok(_) => len % 2 == 0 && len / 2 == entry.size && entry.xxh3@ == hexadecimal(hash as nat, 16),
            Err(PersistError::OddLength(n)) => n == len && len % 2 == 1,
            Err(PersistError::SizeMismatch(n, m)) => len % 2 == 0 && n == len / 2 && m == entry.size && n != m,
            Err(PersistError::ChecksumMismatch(s, t)) => {
                &&& len % 2 == 0
                &&& len / 2 == entry.size
                &&& s@ == hexadecimal(hash as nat, 16)
                &&& t@ == entry.xxh3@
                &&& s@ != t@
            },
            Err(PersistError::NoEntry) => false,
        },
{
    if len % 2 != 0 {
        return Err(PersistError::OddLength(len));
    }
    let n: u64 = (len / 2) as u64;
    if n != entry.size {
        return Err(PersistError::SizeMismatch(n, entry.size));
    }
    let actual: String = hash_text(hash);
    if actual == entry.xxh3 {
        Ok(())
    } else {
        Err(PersistError::ChecksumMismatch(actual, entry.xxh3.clone()))
    }
}

/// A value file agrees with the entry for its subspace.
pub open spec fn agrees(entry: ManifestEntry, bytes: Seq<u8>) -> bool {
    &&& bytes.len() % 2 == 0
    &&& bytes.len() / 2 == entry.size
    &&& entry.xxh3@ == checksum(bytes)
}

/// The manifest has an entry for the subspace, and the file is there and agrees
/// with it.
pub open spec fn solved(entries: Seq<ManifestEntry>, w: int, b: int, file: Option<Seq<u8>>) -> bool {
    match (lookup(entries, w, b), file) {
        (Some(entry), Some(bytes)) => agrees(entry, bytes),
        _ => false,
    }
}

/// The bytes of a file that may be missing.
pub open spec fn contents(file: Option<&[u8]>) -> Option<Seq<u8>> {
    match file {
        Some(bytes) => Some(bytes@),
        None => None,
    }
}

/// The first thing that is wrong with a value file and the entry found for it.
pub open spec fn refuses(entry: Option<ManifestEntry>, bytes: Seq<u8>, e: PersistError) -> bool {
    match entry {
        None => e is NoEntry,
        Some(x) => match e {
            PersistError::NoEntry => false,
            PersistError::OddLength(n) => n == bytes.len() && n % 2 == 1,
            PersistError::SizeMismatch(n, m) => {
                &&& bytes.len() % 2 == 0
                &&& n == bytes.len() / 2
                &&& m == x.size
                &&& n != m
            },
            PersistError::ChecksumMismatch(s, t) => {
                &&& bytes.len() % 2 == 0
                &&& bytes.len() / 2 == x.size
                &&& s@ == checksum(bytes)
                &&& t@ == x.xxh3@
                &&& s@ != t@
            },
        },
    }
}

/// The codes of a value file that agrees with its entry in the manifest.
pub fn read_subspace_verified(manifest: &Manifest, w: usize, b: usize, bytes: &[u8]) -> (r: Result<Vec<u16>, PersistError>)
    ensures
        match r {
            Ok(v) => {
                &&& v@ == u16s(bytes@)
                &&& lookup(manifest.entries@, w as int, b as int) matches Some(entry) && agrees(entry, bytes@)
            },
            Err(e) => refuses(lookup(manifest.entries@, w as int, b as int), bytes@, e),
        },
{
    let entry: &ManifestEntry = match manifest.find(w, b) {
        Some(e) => e,
        None => {
            return Err(PersistError::NoEntry);
        },
    };
    match check_bytes(entry, bytes.len(), xxh3_64(bytes)) {
        Ok(_) => bytes_to_u16_vec(bytes),
        Err(e) => Err(e),
    }
}

/// A value file that was written with its entry agrees with it, and is read
/// back as it was.
pub proof fn written_values_read_back(entry: ManifestEntry, data: Seq<u16>)
    requires
        entry.size == data.len(),
        entry.xxh3@ == checksum(bytes_of(data)),
    ensures
        agrees(entry, bytes_of(data)),
        u16s(bytes_of(data)) == data,
{
    bytes_round_trip(data);
}

/// Whether a mapped value file agrees with its entry in the manifest.
pub fn mmap_subspace_verified(manifest: &Manifest, w: usize, b: usize, mmap: &memmap2::Mmap) -> (r: Result<(), PersistError>)
    ensures
        match r {
            Ok(_) => lookup(manifest.entries@, w as int, b as int) matches Some(entry) && agrees(
                entry,
                mmap_contents(*mmap),
            ),
            Err(e) => refuses(lookup(manifest.entries@, w as int, b as int), mmap_contents(*mmap), e),
        },
{
    let entry: &ManifestEntry = match manifest.find(w, b) {
        Some(e) => e,
        None => {
            return Err(PersistError::NoEntry);
        },
    };
    let bytes = mmap_slice(mmap);
    check_bytes(entry, bytes.len(), xxh3_64(bytes))
}

/// Whether subspace `(w, b)` is solved on disk: the manifest has an entry for
/// it, and its file is there with the length and the checksum that the entry
/// asks for.
pub fn is_solved(manifest: &Manifest, w: usize, b: usize, file: Option<&[u8]>) -> (r: bool)
    ensures
        r == solved(manifest.entries@, w as int, b as int, contents(file)),
{
    match (manifest.find(w, b), file) {
        (Some(entry), Some(bytes)) => check_bytes(entry, bytes.len(), xxh3_64(bytes)).is_ok(),
        _ => false,
    }
}

/// The entry found for a subspace is the first that is for it, and none is found only
/// if there is none.
pub proof fn the_first_entry_is_found(entries: Seq<ManifestEntry>, w: int, b: int)
    ensures
        match lookup(entries, w, b) {
            Some(e) => exists|i: int|
                {
                    &&& 0 <= i < entries.len()
                    &&& #[trigger] entries[i] == e
                    &&& e.w == w && e.b == b
                    &&& forall|j: int| 0 <= j < i ==> !((#[trigger] entries[j]).w == w && entries[j].b == b)
                },
            None => forall|j: int| 0 <= j < entries.len() ==> !((#[trigger] entries[j]).w == w && entries[j].b == b),
        },
    decreases entries.len(),
{
    if entries.len() > 0 {
        let (r, n) = (entries.drop_last(), entries.len() - 1);
        the_first_entry_is_found(r, w, b);
        assert(forall|j: int| 0 <= j < n ==> #[trigger] entries[j] == r[j]);
        if let Some(e) = lookup(r, w, b) {
            let i = choose|i: int|
                {
                    &&& 0 <= i < r.len()
                    &&& #[trigger] r[i] == e
                    &&& e.w == w && e.b == b
                    &&& forall|j: int| 0 <= j < i ==> !((#[trigger] r[j]).w == w && r[j].b == b)
                };
            assert(entries[i] == e);
        } else if entries[n].w == w && entries[n].b == b {
            assert(entries[n] == entries.last());
        }
    }
}

/// Putting an entry in adds it at the end, takes out what was listed for its subspace,
/// and keeps the rest.
pub proof fn upserting_replaces(entries: Seq<ManifestEntry>, entry: ManifestEntry, e: ManifestEntry)
    ensures
        upserted(entries, entry).last() == entry,
        upserted(entries, entry).contains(e) <==> e == entry || entries.contains(e) && !(e.w == entry.w && e.b == entry.b),
{
    let l = others(entries, entry.w as int, entry.b as int);
    lemma_others_kept(entries, entry.w as int, entry.b as int, e);
    lemma_push_contains(l, entry, e);
}

proof fn lemma_others_kept(entries: Seq<ManifestEntry>, w: int, b: int, e: ManifestEntry)
    ensures
        others(entries, w, b).contains(e) <==> entries.contains(e) && !e.is_for(w, b),
    decreases entries.len(),
{
    if entries.len() > 0 {
        let rest = entries.drop_last();
        lemma_others_kept(rest, w, b, e);
        assert(entries =~= rest.push(entries.last()));
        lemma_push_contains(rest, entries.last(), e);
        lemma_push_contains(others(rest, w, b), entries.last(), e);
    } else {
        assert(others(entries, w, b).len() == 0);
    }
}

proof fn lemma_push_contains(l: Seq<ManifestEntry>, last: ManifestEntry, e: ManifestEntry)
    ensures
        l.push(last).contains(e) <==> l.contains(e) || e == last,
{
    assert(l.push(last)[l.len() as int] == last);
    if l.contains(e) {
        let i = l.index_of(e);
        assert(l.push(last)[i] == e);
    }
}

/// Checksums tell hashes apart: 16 digits that read back as the hash.
pub proof fn checksums_tell_hashes_apart(f: Seq<u8>, g: Seq<u8>)
    ensures
        checksum(f).len() == 16,
        hex_number_of(checksum(f)) == xxh3_64_of(f),
        checksum(f) == checksum(g) <==> xxh3_64_of(f) == xxh3_64_of(g),
{
    assert(pow(16, 16) == 0x1_0000_0000_0000_0000) by {
        reveal(pow);
        reveal_with_fuel(pow, 17);
    }
    hexadecimals_read_back(xxh3_64_of(f) as nat, 16);
    hexadecimals_read_back(xxh3_64_of(g) as nat, 16);
}

/// Whether a file counts as solved depends on its length and its hash: of two files for
/// the same entry both do only if both are the same there, and what is found decides.
pub proof fn solved_files_have_one_length_and_hash(
    entries: Seq<ManifestEntry>,
    w: int,
    b: int,
    f: Seq<u8>,
    g: Seq<u8>,
)
    requires
        solved(entries, w, b, Some(f)),
    ensures
        lookup(entries, w, b) is Some,
        f.len() == 2 * lookup(entries, w, b)->0.size,
        solved(entries, w, b, Some(g)) <==> g.len() == f.len() && xxh3_64_of(g) == xxh3_64_of(f),
        !solved(entries, w, b, None),
{
    checksums_tell_hashes_apart(f, g);
}

/// A value file is read only if it counts as solved, and is refused otherwise.
pub proof fn files_are_refused_unless_solved(entries: Seq<ManifestEntry>, w: int, b: int, f: Seq<u8>, e: PersistError)
    requires
        refuses(lookup(entries, w, b), f, e),
    ensures
        !solved(entries, w, b, Some(f)),
{
}

/// Codes are stored one after the other, the low byte first.
pub proof fn codes_are_stored_low_byte_first(data: Seq<u16>, i: int)
    requires
        0 <= i < data.len(),
    ensures
        bytes_of(data).len() == 2 * data.len(),
        data[i] == bytes_of(data)[2 * i] + 256 * bytes_of(data)[2 * i + 1],
{
}

/// A refusal says what is wrong, and the first such thing: no entry; an odd length; a number
/// of codes that is not the entry's; or a checksum that is not the entry's.
pub proof fn refusals_say_what_is_wrong(found: Option<ManifestEntry>, bytes: Seq<u8>, e: PersistError)
    requires
        refuses(found, bytes, e),
    ensures
        match e {
            PersistError::NoEntry => found is None,
            PersistError::OddLength(n) => found is Some && n == bytes.len() && bytes.len() % 2 == 1,
            PersistError::SizeMismatch(n, m) => found is Some && 2 * n == bytes.len() && m == found->0.size && n != m,
            PersistError::ChecksumMismatch(s, t) => {
                &&& found is Some
                &&& bytes.len() == 2 * found->0.size
                &&& s@ == checksum(bytes)
                &&& t@ == found->0.xxh3@
                &&& s@ != t@
            },
        },
{
}

/// Value files are named after their stone counts, so each subspace has its own.
pub proof fn value_files_have_their_own_names(w: nat, b: nat, x: nat, y: nat)
    requires
        w < 10,
        b < 10,
        x < 10,
        y < 10,
    ensures
        file_name(w, b) == "wdl_"@ + decimal(w) + "_"@ + decimal(b) + ".bin"@,
        file_name(w, b) == file_name(x, y) <==> w == x && b == y,
{
    reveal_strlit("wdl_");
    reveal_strlit("_");
    let (s, t) = (file_name(w, b), file_name(x, y));
    assert(s[4] == digit_char(w as int) && t[4] == digit_char(x as int));
    assert(s[6] == digit_char(b as int) && t[6] == digit_char(y as int));
}

} // verus!
