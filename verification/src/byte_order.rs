//! Numbers as bytes, in either order.

use vstd::bytes::*;
use vstd::prelude::*;
use vstd::slice::slice_subrange;

verus! {

/// The order of the bytes of a number: the lowest first, or the highest.
#[derive(Clone, Copy, Debug, PartialEq, Eq, Structural)]
pub enum ByteOrder {
    Little,
    Big,
}

/// `u16::to_ne_bytes`: the two bytes of a number in the order of the machine.
/// The contract claims that this order is one of the two; which one is a matter
/// of the machine, and is left unsaid.
#[verifier::external_body]
pub(crate) fn native_bytes(x: u16) -> (r: [u8; 2])
    ensures
        r@ == seq![(x % 256) as u8, (x / 256) as u8] || r@ == seq![(x / 256) as u8, (x % 256) as u8],
{
    x.to_ne_bytes()
}

/// The order in which the number 1 has the given bytes.
pub open spec fn order_in(bytes: Seq<u8>) -> ByteOrder {
    if bytes[0] == 1 {
        ByteOrder::Little
    } else {
        ByteOrder::Big
    }
}

/// The order in which the number 1 has the given bytes.
pub fn order_of(bytes: &[u8; 2]) -> (order: ByteOrder)
    ensures
        order == order_in(bytes@),
{
    if bytes[0] == 1 {
        ByteOrder::Little
    } else {
        ByteOrder::Big
    }
}

/// The bytes of a number.
pub open spec fn u64_bytes(order: ByteOrder, n: u64) -> Seq<u8> {
    match order {
        ByteOrder::Little => spec_u64_to_le_bytes(n),
        ByteOrder::Big => spec_u64_to_le_bytes(n).reverse(),
    }
}

/// The number that eight bytes make.
pub open spec fn bytes_u64(order: ByteOrder, s: Seq<u8>) -> u64 {
    match order {
        ByteOrder::Little => spec_u64_from_le_bytes(s),
        ByteOrder::Big => spec_u64_from_le_bytes(s.reverse()),
    }
}

/// The number at place `i`.
pub open spec fn u64_at(order: ByteOrder, s: Seq<u8>, i: int) -> u64 {
    bytes_u64(order, s.subrange(i, i + 8))
}

/// Reading the bytes of a number gives the number.
pub broadcast proof fn numbers_round_trip(order: ByteOrder, n: u64)
    ensures
        (#[trigger] u64_bytes(order, n)).len() == 8,
        bytes_u64(order, u64_bytes(order, n)) == n,
{
    lemma_auto_spec_u64_to_from_le_bytes();
    let s = spec_u64_to_le_bytes(n);
    assert(s.reverse().reverse() =~= s);
}

/// Appends the bytes of a number.
pub fn push_u64(buf: &mut Vec<u8>, order: ByteOrder, n: u64)
    ensures
        final(buf)@ == old(buf)@ + u64_bytes(order, n),
{
    let bytes: Vec<u8> = u64_to_le_bytes(n);
    let ghost start = buf@;
    let mut i: usize = 0;
    while i < 8
        invariant
            i <= 8,
            bytes.len() == 8,
            bytes@ == spec_u64_to_le_bytes(n),
            buf@ == start + u64_bytes(order, n).take(i as int),
        decreases 8 - i,
    {
        proof {
            numbers_round_trip(order, n);
        }
        let byte: u8 = match order {
            ByteOrder::Little => bytes[i],
            ByteOrder::Big => bytes[7 - i],
        };
        buf.push(byte);
        assert(u64_bytes(order, n).take(i + 1) =~= u64_bytes(order, n).take(i as int).push(byte));
        assert(buf@ =~= start + u64_bytes(order, n).take(i + 1));
        i = i + 1;
    }
    proof {
        numbers_round_trip(order, n);
        assert(u64_bytes(order, n).take(8) =~= u64_bytes(order, n));
    }
}

/// The number at place `i` of a byte slice.
pub fn read_u64(order: ByteOrder, bytes: &[u8], i: usize) -> (n: u64)
    requires
        i + 8 <= bytes@.len(),
    ensures
        n == u64_at(order, bytes@, i as int),
{
    assert(bytes@.len() <= usize::MAX) by {
        vstd::slice::axiom_spec_len(bytes);
    }
    match order {
        ByteOrder::Little => u64_from_le_bytes(slice_subrange(bytes, i, i + 8)),
        ByteOrder::Big => {
            let mut turned: Vec<u8> = Vec::new();
            let ghost s = bytes@.subrange(i as int, i + 8);
            let mut k: usize = 0;
            while k < 8
                invariant
                    k <= 8,
                    i + 8 <= bytes@.len() <= usize::MAX,
                    s == bytes@.subrange(i as int, i + 8),
                    turned@ == s.reverse().take(k as int),
                decreases 8 - k,
            {
                turned.push(bytes[i + 7 - k]);
                assert(turned@ =~= s.reverse().take(k + 1));
                k = k + 1;
            }
            assert(s.reverse().take(8) =~= s.reverse());
            u64_from_le_bytes(turned.as_slice())
        },
    }
}

/// The eight bytes of a number are its digits to the base 256: in the one order the lowest
/// comes first, in the other the highest, and either is the other backwards.
pub proof fn orders_are_each_other_backwards(n: u64, i: int)
    requires
        0 <= i < 8,
    ensures
        u64_bytes(ByteOrder::Little, n)[i] == u64_bytes(ByteOrder::Big, n)[7 - i],
        u64_bytes(ByteOrder::Little, n)[0] == n % 256,
{
    numbers_round_trip(ByteOrder::Little, n);
    lemma_lowest_byte(n);
}

proof fn lemma_lowest_byte(n: u64)
    ensures
        spec_u64_to_le_bytes(n)[0] == n % 256,
{
    lemma_auto_spec_u64_to_from_le_bytes();
    spec_u64_to_le_bytes_to_open(n);
    assert((n & 0xff) as u8 == n % 256) by (bit_vector);
}

} // verus!
