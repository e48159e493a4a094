//! Memory-mapped value files.

use vstd::prelude::*;

verus! {

/// A read-only memory map of a file.
#[verifier::external_type_specification]
#[verifier::external_body]
pub struct ExMmap(memmap2::Mmap);

/// The bytes that a memory map shows.
pub uninterp spec fn mmap_contents(m: memmap2::Mmap) -> Seq<u8>;

/// `memmap2::Mmap` dereferenced: the mapped bytes as a slice. The contract
/// claims that a map shows the same bytes for as long as it lives, which its
/// unsafe constructors oblige their caller to see to: the file must not be
/// changed while it is mapped.
#[verifier::external_body]
pub(crate) fn mmap_slice(m: &memmap2::Mmap) -> (bytes: &[u8])
    ensures
        bytes@ == mmap_contents(*m),
{
    &m[..]
}

/// The two bytes at `2 * i` as a little-endian number.
pub open spec fn u16_at(bytes: Seq<u8>, i: int) -> u16 {
    (bytes[2 * i] + 256 * bytes[2 * i + 1]) as u16
}

/// The little-endian numbers that a byte sequence holds.
pub open spec fn u16s(bytes: Seq<u8>) -> Seq<u16> {
    Seq::new(bytes.len() / 2, |i: int| u16_at(bytes, i))
}

/// Number `i` of the little-endian numbers that a byte slice holds.
#[inline]
pub fn get_u16(bytes: &[u8], i: usize) -> (v: u16)
    requires
        i < bytes@.len() / 2,
    ensures
        v == u16s(bytes@)[i as int],
{
    assert(bytes@.len() <= usize::MAX) by {
        vstd::slice::axiom_spec_len(bytes);
    }
    bytes[2 * i] as u16 + 256 * (bytes[2 * i + 1] as u16)
}

/// Number `idx` of a mapped value file.
pub fn mmap_get_u16(m: &memmap2::Mmap, idx: u64) -> (v: u16)
    requires
        idx < mmap_contents(*m).len() / 2,
    ensures
        v == u16s(mmap_contents(*m))[idx as int],
{
    let bytes = mmap_slice(m);
    assert(bytes@.len() <= usize::MAX) by {
        vstd::slice::axiom_spec_len(bytes);
    }
    get_u16(bytes, idx as usize)
}

} // verus!
