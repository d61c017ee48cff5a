//! Bit streams over bytes, most significant bit first.

use vstd::prelude::*;

verus! {

/// Bit `i` of `x`, counted from the least significant bit.
pub open spec fn bit(x: u8, i: int) -> bool {
    (x >> (i as u8)) & 1 == 1
}

/// The eight bits of `x`, most significant first.
pub open spec fn byte_bits(x: u8) -> Seq<bool> {
    Seq::new(8, |r: int| bit(x, 7 - r))
}

/// The byte whose bits, most significant first, are `s[0]` to `s[7]`.
pub open spec fn pack(s: Seq<bool>) -> u8 {
    (if s[0] { 128u8 } else { 0u8 }) | (if s[1] { 64u8 } else { 0u8 })
        | (if s[2] { 32u8 } else { 0u8 }) | (if s[3] { 16u8 } else { 0u8 })
        | (if s[4] { 8u8 } else { 0u8 }) | (if s[5] { 4u8 } else { 0u8 })
        | (if s[6] { 2u8 } else { 0u8 }) | (if s[7] { 1u8 } else { 0u8 })
}

/// The bit stream of `data`: byte after byte, each most significant bit first.
pub open spec fn bits_of(data: Seq<u8>) -> Seq<bool> {
    Seq::new(8 * data.len(), |t: int| bit(data[t / 8], 7 - t % 8))
}

/// The whole bytes of a bit stream; a tail of fewer than eight bits is left out.
pub open spec fn bytes_of(bits: Seq<bool>) -> Seq<u8> {
    Seq::new(bits.len() / 8, |b: int| pack(bits.subrange(8 * b, 8 * b + 8)))
}

/// A byte is the packing of its own bits.
pub proof fn lemma_pack_byte_bits(x: u8)
    ensures
        pack(byte_bits(x)) == x,
{
    assert(x == (if (x >> 7u8) & 1 == 1 { 128u8 } else { 0u8 })
        | (if (x >> 6u8) & 1 == 1 { 64u8 } else { 0u8 })
        | (if (x >> 5u8) & 1 == 1 { 32u8 } else { 0u8 })
        | (if (x >> 4u8) & 1 == 1 { 16u8 } else { 0u8 })
        | (if (x >> 3u8) & 1 == 1 { 8u8 } else { 0u8 })
        | (if (x >> 2u8) & 1 == 1 { 4u8 } else { 0u8 })
        | (if (x >> 1u8) & 1 == 1 { 2u8 } else { 0u8 })
        | (if (x >> 0u8) & 1 == 1 { 1u8 } else { 0u8 })) by (bit_vector);
}

/// Bit `i` of a packed byte is the bit that was packed at that place.
pub proof fn lemma_bit_of_pack(s: Seq<bool>, i: int)
    requires
        0 <= i < 8,
    ensures
        bit(pack(s), i) == s[7 - i],
{
    let (b0, b1, b2, b3, b4, b5, b6, b7) = (s[0], s[1], s[2], s[3], s[4], s[5], s[6], s[7]);
    let k = i as u8;
    assert(k < 8 ==> ((((if b0 { 128u8 } else { 0u8 }) | (if b1 { 64u8 } else { 0u8 })
        | (if b2 { 32u8 } else { 0u8 }) | (if b3 { 16u8 } else { 0u8 })
        | (if b4 { 8u8 } else { 0u8 }) | (if b5 { 4u8 } else { 0u8 })
        | (if b6 { 2u8 } else { 0u8 }) | (if b7 { 1u8 } else { 0u8 })) >> k) & 1 == 1) == (
    if k == 7 {
        b0
    } else if k == 6 {
        b1
    } else if k == 5 {
        b2
    } else if k == 4 {
        b3
    } else if k == 3 {
        b4
    } else if k == 2 {
        b5
    } else if k == 1 {
        b6
    } else {
        b7
    })) by (bit_vector);
}

/// Cutting a byte sequence into bits and packing them again gives it back.
pub proof fn lemma_bytes_of_bits_of(data: Seq<u8>)
    ensures
        bytes_of(bits_of(data)) == data,
{
    let bits = bits_of(data);
    assert forall|b: int| 0 <= b < data.len() implies bytes_of(bits)[b] == data[b] by {
        assert(bits.subrange(8 * b, 8 * b + 8) =~= byte_bits(data[b]));
        lemma_pack_byte_bits(data[b]);
    }
    assert(bytes_of(bits) =~= data);
}

/// Packing a whole number of bytes and cutting them into bits gives the bits
/// back.
pub proof fn lemma_bits_of_bytes_of(bits: Seq<bool>)
    requires
        bits.len() % 8 == 0,
    ensures
        bits_of(bytes_of(bits)) == bits,
{
    let data = bytes_of(bits);
    assert forall|t: int| 0 <= t < bits.len() implies bits_of(data)[t] == bits[t] by {
        let s = bits.subrange(8 * (t / 8), 8 * (t / 8) + 8);
        lemma_bit_of_pack(s, 7 - t % 8);
    }
    assert(bits_of(data) =~= bits);
}

/// Two bytes with the same eight bits are the same byte.
pub proof fn lemma_byte_by_bits(x: u8, y: u8)
    requires
        forall|i: int| 0 <= i < 8 ==> bit(x, i) == bit(y, i),
    ensures
        x == y,
{
    assert(byte_bits(x) =~= byte_bits(y));
    lemma_pack_byte_bits(x);
    lemma_pack_byte_bits(y);
}

/// Masking a byte with a single bit tells whether that bit is set.
pub(crate) proof fn lemma_masked_bit(x: u8, b: u8)
    by (bit_vector)
    requires
        b < 8,
    ensures
        (x & (1u8 << b) == 0) == !((x >> b) & 1 == 1),
{
}

} // verus!
