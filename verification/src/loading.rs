//! Filling a database from value files, one after the other, as the manifest
//! lists them. Each file is checked against its entry before it is registered.

use vstd::prelude::*;

use crate::database::Database;
use crate::index::SubspaceId;
use crate::mapped::{mmap_contents, u16s};
use crate::persist::{
    agrees, lookup, mmap_subspace_verified, read_subspace_verified, refuses, the_first_entry_is_found,
    Manifest, ManifestEntry, PersistError,
};
use crate::text::{decimal, push_decimal, push_text};

verus! {

/// The material splits among the first `n` of the 49 for which the manifest has
/// no entry.
pub open spec fn absent(entries: Seq<ManifestEntry>, n: int) -> Seq<(usize, usize)>
    decreases n,
{
    if n <= 0 {
        Seq::empty()
    } else {
        let (w, b) = (3 + (n - 1) / 7, 3 + (n - 1) % 7);
        if lookup(entries, w, b) is None {
            absent(entries, n - 1).push((w as usize, b as usize))
        } else {
            absent(entries, n - 1)
        }
    }
}

/// The subspaces that are missing from a complete database.
pub fn missing_subspaces(manifest: &Manifest) -> (v: Vec<(usize, usize)>)
    ensures
        v@ == absent(manifest.entries@, 49),
{
    let mut v: Vec<(usize, usize)> = Vec::new();
    let mut i: usize = 0;
    while i < 49
        invariant
            i <= 49,
            v@ == absent(manifest.entries@, i as int),
        decreases 49 - i,
    {
        let (w, b) = (3 + i / 7, 3 + i % 7);
        if manifest.find(w, b).is_none() {
            v.push((w, b));
        }
        i = i + 1;
    }
    v
}

/// With nothing missing, every subspace has an entry.
proof fn lemma_nothing_absent(entries: Seq<ManifestEntry>, n: int, i: int)
    requires
        absent(entries, n).len() == 0,
        0 <= i < n,
    ensures
        lookup(entries, 3 + i / 7, 3 + i % 7) is Some,
    decreases n,
{
    if i < n - 1 {
        lemma_nothing_absent(entries, n - 1, i);
    }
}

/// A list of pairs as text, such as `[(3, 3), (3, 4)]`.
pub open spec fn pairs_text(l: Seq<(usize, usize)>) -> Seq<char> {
    "["@ + pairs_inside(l) + "]"@
}

/// A list of pairs as text, without the brackets round it.
pub open spec fn pairs_inside(l: Seq<(usize, usize)>) -> Seq<char>
    decreases l.len(),
{
    if l.len() == 0 {
        Seq::empty()
    } else {
        let last = "("@ + decimal(l.last().0 as nat) + ", "@ + decimal(l.last().1 as nat) + ")"@;
        if l.len() == 1 {
            last
        } else {
            pairs_inside(l.drop_last()) + ", "@ + last
        }
    }
}

/// What an incomplete database lacks, in words: how many subspaces, and the
/// first five of them.
pub open spec fn incomplete_text(dir: Seq<char>, missing: Seq<(usize, usize)>) -> Seq<char> {
    "database at "@ + dir + " is incomplete ("@ + decimal(missing.len()) + " of 49 subspaces missing, e.g. "@ + pairs_text(
        missing.take(
            if missing.len() < 5 {
                missing.len() as int
            } else {
                5
            },
        ),
    ) + ")"@
}

/// Appends the first `n` pairs of a list.
fn push_pairs(s: &mut String, l: &Vec<(usize, usize)>, n: usize)
    requires
        n <= l.len(),
    ensures
        final(s)@ == old(s)@ + pairs_inside(l@.take(n as int)),
    decreases n,
{
    let ghost before = s@;
    if n > 0 {
        proof {
            assert(l@.take(n as int).drop_last() =~= l@.take(n - 1));
        }
        if n > 1 {
            push_pairs(s, l, n - 1);
            push_text(s, ", ");
        }
        push_text(s, "(");
        push_decimal(s, l[n - 1].0 as u64);
        push_text(s, ", ");
        push_decimal(s, l[n - 1].1 as u64);
        push_text(s, ")");
    }
    assert(s@ =~= before + pairs_inside(l@.take(n as int)));
}

/// Says what an incomplete database lacks.
pub fn describe_missing(dir: &str, missing: &Vec<(usize, usize)>) -> (s: String)
    ensures
        s@ == incomplete_text(dir@, missing@),
{
    let mut s: String = String::new();
    push_text(&mut s, "database at ");
    push_text(&mut s, dir);
    push_text(&mut s, " is incomplete (");
    push_decimal(&mut s, missing.len() as u64);
    push_text(&mut s, " of 49 subspaces missing, e.g. ");
    push_text(&mut s, "[");
    let n: usize = if missing.len() < 5 {
        missing.len()
    } else {
        5
    };
    push_pairs(&mut s, missing, n);
    push_text(&mut s, "]");
    push_text(&mut s, ")");
    assert(s@ =~= incomplete_text(dir@, missing@));
    s
}

/// A database with what it was loaded from.
pub struct Loaded {
    pub db: Database,
    /// All 49 subspaces are there.
    pub complete: bool,
    pub subspaces: usize,
    pub manifest: Manifest,
}

/// A database while it is filled.
pub struct Loading {
    manifest: Manifest,
    db: Database,
    complete: bool,
    next: usize,
}

impl Loading {
    /// The entries of the manifest.
    pub closed spec fn entries(&self) -> Seq<ManifestEntry> {
        self.manifest.entries@
    }

    /// How many entries are through.
    pub closed spec fn through(&self) -> int {
        self.next as int
    }

    /// What is registered so far.
    pub closed spec fn registered(&self) -> Map<(u8, u8), Seq<u16>> {
        self.db@
    }

    /// The subspaces of the entries that are through are registered.
    pub closed spec fn wf(&self) -> bool {
        &&& self.next <= self.manifest.entries@.len()
        &&& self.complete == (absent(self.manifest.entries@, 49).len() == 0)
        &&& forall|i: int|
            0 <= i < self.next ==> {
                let e = #[trigger] self.manifest.entries@[i];
                self.db@.contains_key((e.w, e.b))
            }
    }

    /// Starts to load what the manifest lists. An incomplete database is
    /// refused, with what is missing, unless that is allowed.
    pub fn start(manifest: Manifest, allow_partial: bool) -> (r: Result<Loading, Vec<(usize, usize)>>)
        ensures
            match r {
                Ok(l) => {
                    &&& l.wf()
                    &&& allow_partial || absent(manifest.entries@, 49).len() == 0
                    &&& l.entries() == manifest.entries@
                    &&& l.through() == 0
                    &&& l.registered() == Map::<(u8, u8), Seq<u16>>::empty()
                },
                Err(missing) => {
                    &&& !allow_partial
                    &&& missing@ == absent(manifest.entries@, 49)
                    &&& missing@.len() > 0
                },
            },
    {
        let missing: Vec<(usize, usize)> = missing_subspaces(&manifest);
        let complete: bool = missing.len() == 0;
        if !complete && !allow_partial {
            return Err(missing);
        }
        Ok(Loading { manifest, db: Database::new(), complete, next: 0 })
    }

    /// The subspace whose file is to be supplied next, until all are through.
    pub fn wanted(&self) -> (r: Option<(usize, usize)>)
        requires
            self.wf(),
        ensures
            0 <= self.through() <= self.entries().len(),
            match r {
                Some((w, b)) => self.through() < self.entries().len() && w == self.entries()[self.through()].w && b
                    == self.entries()[self.through()].b,
                None => self.through() == self.entries().len(),
            },
    {
        if self.next < self.manifest.entries.len() {
            let e: &ManifestEntry = &self.manifest.entries[self.next];
            Some((e.w as usize, e.b as usize))
        } else {
            None
        }
    }

    /// Registers the mapped file of the wanted subspace, if it agrees with the
    /// manifest.
    pub fn supply_map(&mut self, mmap: memmap2::Mmap) -> (r: Result<(), PersistError>)
        requires
            old(self).wf(),
            old(self).through() < old(self).entries().len(),
        ensures
            final(self).wf(),
            final(self).entries() == old(self).entries(),
            ({
                let e = old(self).entries()[old(self).through()];
                let found = lookup(old(self).entries(), e.w as int, e.b as int);
                match r {
                    Ok(_) => {
                        &&& found matches Some(x) && agrees(x, mmap_contents(mmap))
                        &&& final(self).through() == old(self).through() + 1
                        &&& final(self).registered() == old(self).registered().insert((e.w, e.b), u16s(mmap_contents(mmap)))
                    },
                    Err(x) => {
                        &&& refuses(found, mmap_contents(mmap), x)
                        &&& final(self).through() == old(self).through()
                        &&& final(self).registered() == old(self).registered()
                    },
                }
            }),
    {
        let (w, b): (u8, u8) = (self.manifest.entries[self.next].w, self.manifest.entries[self.next].b);
        match mmap_subspace_verified(&self.manifest, w as usize, b as usize, &mmap) {
            Ok(_) => {},
            Err(e) => {
                return Err(e);
            },
        }
        self.db.insert_mmap(w as usize, b as usize, mmap);
        assert(self.next < self.manifest.entries.len());
        self.next = self.next + 1;
        Ok(())
    }

    /// Registers the codes in the bytes of the wanted file, if they agree with
    /// the manifest.
    pub fn supply_bytes(&mut self, bytes: &[u8]) -> (r: Result<(), PersistError>)
        requires
            old(self).wf(),
            old(self).through() < old(self).entries().len(),
        ensures
            final(self).wf(),
            final(self).entries() == old(self).entries(),
            ({
                let e = old(self).entries()[old(self).through()];
                let found = lookup(old(self).entries(), e.w as int, e.b as int);
                match r {
                    Ok(_) => {
                        &&& found matches Some(x) && agrees(x, bytes@)
                        &&& final(self).through() == old(self).through() + 1
                        &&& final(self).registered() == old(self).registered().insert((e.w, e.b), u16s(bytes@))
                    },
                    Err(x) => {
                        &&& refuses(found, bytes@, x)
                        &&& final(self).through() == old(self).through()
                        &&& final(self).registered() == old(self).registered()
                    },
                }
            }),
    {
        let (w, b): (u8, u8) = (self.manifest.entries[self.next].w, self.manifest.entries[self.next].b);
        let values: Vec<u16> = match read_subspace_verified(&self.manifest, w as usize, b as usize, bytes) {
            Ok(v) => v,
            Err(e) => {
                return Err(e);
            },
        };
        self.db.insert(w as usize, b as usize, values);
        assert(self.next < self.manifest.entries.len());
        self.next = self.next + 1;
        Ok(())
    }

    /// The loaded database, once all entries are through. It is complete if
    /// every subspace is in it.
    pub fn finish(self) -> (l: Loaded)
        requires
            self.wf(),
            self.through() == self.entries().len(),
        ensures
            l.db@ == self.registered(),
            l.manifest.entries@ == self.entries(),
            l.subspaces == self.entries().len(),
            l.complete == (absent(self.entries(), 49).len() == 0),
            l.complete ==> forall|sub: SubspaceId| #[trigger] sub.wf() ==> l.db@.contains_key((sub.w, sub.b)),
    {
        proof {
            if self.complete {
                assert forall|sub: SubspaceId| #[trigger] sub.wf() implies self.db@.contains_key((sub.w, sub.b)) by {
                    let i = (sub.w - 3) * 7 + (sub.b - 3);
                    lemma_nothing_absent(self.manifest.entries@, 49, i);
                    assert(3 + i / 7 == sub.w && 3 + i % 7 == sub.b);
                    let k = lemma_lookup_listed(self.manifest.entries@, sub.w as int, sub.b as int);
                    let e = self.manifest.entries@[k];
                }
            }
        }
        let subspaces: usize = self.manifest.entries.len();
        Loaded { db: self.db, complete: self.complete, subspaces, manifest: self.manifest }
    }
}

/// What is found is listed.
proof fn lemma_lookup_listed(entries: Seq<ManifestEntry>, w: int, b: int) -> (i: int)
    requires
        lookup(entries, w, b) is Some,
    ensures
        0 <= i < entries.len(),
        entries[i].is_for(w, b),
    decreases entries.len(),
{
    if lookup(entries.drop_last(), w, b) is Some {
        lemma_lookup_listed(entries.drop_last(), w, b)
    } else {
        entries.len() - 1
    }
}

/// What is missing is listed: every split of 3 to 9 stones a side for which the manifest
/// has no entry, and no other; each once, in ascending order.
pub proof fn missing_splits_are_listed(entries: Seq<ManifestEntry>, n: int)
    requires
        0 <= n <= 49,
    ensures
        forall|w: usize, b: usize| #[trigger]
            absent(entries, n).contains((w, b)) <==> {
                &&& 3 <= w <= 9 && 3 <= b <= 9
                &&& (w - 3) * 7 + (b - 3) < n
                &&& forall|j: int| 0 <= j < entries.len() ==> !((#[trigger] entries[j]).w == w && entries[j].b == b)
            },
        forall|i: int, j: int|
            0 <= i < j < absent(entries, n).len() ==> {
                let (p, q) = (#[trigger] absent(entries, n)[i], #[trigger] absent(entries, n)[j]);
                p.0 < q.0 || p.0 == q.0 && p.1 < q.1
            },
    decreases n,
{
    let l = absent(entries, n);
    if n > 0 {
        missing_splits_are_listed(entries, n - 1);
        let r = absent(entries, n - 1);
        let (x, y) = (3 + (n - 1) / 7, 3 + (n - 1) % 7);
        the_first_entry_is_found(entries, x, y);
        let p = (x as usize, y as usize);
        assert forall|w: usize, b: usize| #[trigger] l.contains((w, b)) <==> {
            &&& 3 <= w <= 9 && 3 <= b <= 9
            &&& (w - 3) * 7 + (b - 3) < n
            &&& forall|j: int| 0 <= j < entries.len() ==> !((#[trigger] entries[j]).w == w && entries[j].b == b)
        } by {
            assert(3 <= w <= 9 && 3 <= b <= 9 && (w - 3) * 7 + (b - 3) == n - 1 <==> w == x && b == y);
            assert(r.contains((w, b)) ==> (w - 3) * 7 + (b - 3) < n - 1);
            if lookup(entries, x, y) is None {
                assert(l == r.push(p));
                if r.contains((w, b)) {
                    let i = r.index_of((w, b));
                    assert(l[i] == (w, b));
                }
                assert(l[r.len() as int] == p);
                if l.contains((w, b)) {
                    let i = l.index_of((w, b));
                    if i < r.len() {
                        assert(r[i] == (w, b));
                    }
                }
            }
        }
        assert forall|i: int, j: int| 0 <= i < j < l.len() implies {
            let (p, q) = (#[trigger] l[i], #[trigger] l[j]);
            p.0 < q.0 || p.0 == q.0 && p.1 < q.1
        } by {
            if lookup(entries, x, y) is None {
                assert(l[i] == r[i]);
                assert(r.contains(r[i]));
                let (w, b) = r[i];
                assert(r.contains((w, b)));
                if j < r.len() {
                    assert(l[j] == r[j]);
                } else {
                    assert(l[j] == p);
                    assert((w - 3) * 7 + (b - 3) < (x - 3) * 7 + (y - 3));
                }
            } else {
                assert(r[i] == l[i] && r[j] == l[j]);
            }
        }
    }
}

/// How a list of pairs reads: each pair in round brackets, with commas between, and square
/// brackets round the whole.
pub proof fn lists_of_pairs_read_as_they_should(l: Seq<(usize, usize)>, p: (usize, usize))
    ensures
        pairs_text(Seq::empty()) == "["@ + "]"@,
        pairs_text(seq![p]) == "["@ + ("("@ + decimal(p.0 as nat) + ", "@ + decimal(p.1 as nat) + ")"@) + "]"@,
        l.len() > 0 ==> pairs_inside(l.push(p)) == pairs_inside(l) + ", "@ + pairs_inside(seq![p]),
{
    assert(seq![p].drop_last() =~= Seq::<(usize, usize)>::empty());
    assert(l.push(p).drop_last() =~= l);
    assert("["@ + Seq::<char>::empty() =~= "["@);
}

/// What is said of an incomplete database: where it is, how many subspaces it lacks, and the
/// first five of them, or all if there are fewer.
pub proof fn what_is_missing_is_said(dir: Seq<char>, missing: Seq<(usize, usize)>, shown: Seq<(usize, usize)>)
    requires
        shown.len() == if missing.len() < 5 {
            missing.len()
        } else {
            5
        },
        forall|i: int| 0 <= i < shown.len() ==> shown[i] == missing[i],
    ensures
        incomplete_text(dir, missing) == "database at "@ + dir + " is incomplete ("@ + decimal(missing.len())
            + " of 49 subspaces missing, e.g. "@ + pairs_text(shown) + ")"@,
{
    assert(missing.take(shown.len() as int) =~= shown);
}

} // verus!
