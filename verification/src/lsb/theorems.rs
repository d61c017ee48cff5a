//! What holds of the pixel carrier as a whole.

use vstd::prelude::*;
use vstd::arithmetic::div_mod::lemma_fundamental_div_mod;
use crate::bits::{bit, bits_of, byte_bits, bytes_of, lemma_bytes_of_bits_of, lemma_pack_byte_bits};
use crate::error::StegoError;
use crate::lsb::{
    byte_aligned, capacity, carrier_bits, chunk_bits, chunks_needed, embed_outcome, embedded,
    extracted, header_length, header_value, hidden_len, is_permutation, keyed_embedded,
    length_bit, permuted, restored, HEADER_LEN,
};
use crate::lsb::lemmas::{
    lemma_carrier_bit, lemma_chunk_in_range, lemma_length_within, lemma_merged_bit,
};

verus! {

/// The low `m` bits of a length.
spec fn low_part(len: u32, m: u32) -> u64 {
    (len as u64) & (((1u64 << m) - 1) as u64)
}

/// One bit more: the low `m + 1` bits of a length from its low `m` bits.
proof fn lemma_low_part_step(h: u32, len: u32, m: u32)
    by (bit_vector)
    requires
        m < 32,
        h as u64 == low_part(len, m),
    ensures
        (h | (if (len >> m) & 1 == 1 {
            1u32 << m
        } else {
            0u32
        })) as u64 == low_part(len, (m + 1) as u32),
{
}

/// No bits give zero, all 32 give the length.
proof fn lemma_low_part_ends(len: u32)
    by (bit_vector)
    ensures
        low_part(len, 0) == 0,
        low_part(len, 32) == len,
{
}

/// Where the lowest bits of the header bytes are the bits of `len`, the
/// first `m` of them spell the low `m` bits of `len`.
proof fn lemma_header_spells(carrier: Seq<u8>, len: u32, m: nat)
    requires
        m <= HEADER_LEN,
        forall|i: int| 0 <= i < HEADER_LEN ==> bit(#[trigger] carrier[i], 0) == length_bit(len, i),
    ensures
        header_value(carrier, m) as u64 == low_part(len, m as u32),
    decreases m,
{
    if m == 0 {
        lemma_low_part_ends(len);
    } else {
        lemma_header_spells(carrier, len, (m - 1) as nat);
        let _ = carrier[m - 1];
        lemma_low_part_step(header_value(carrier, (m - 1) as nat), len, (m - 1) as u32);
    }
}

/// The header of an embedded carrier announces the number of hidden bytes.
pub proof fn lemma_embedded_header(carrier: Seq<u8>, payload: Seq<u8>, n_bits: int)
    requires
        hidden_len(payload) <= u32::MAX,
        carrier.len() >= HEADER_LEN,
    ensures
        header_length(embedded(carrier, payload, n_bits)) == hidden_len(payload),
{
    let e = embedded(carrier, payload, n_bits);
    let len = hidden_len(payload) as u32;
    assert forall|i: int| 0 <= i < HEADER_LEN implies bit(#[trigger] e[i], 0) == length_bit(
        len,
        i,
    ) by {
        lemma_merged_bit(carrier[i], seq![length_bit(len, i)], 0);
    }
    lemma_header_spells(e, len, HEADER_LEN as nat);
    lemma_low_part_ends(len);
}

/// The bit stream of an embedded carrier begins with the bits of the hidden
/// bytes.
pub proof fn lemma_embedded_bits(carrier: Seq<u8>, payload: Seq<u8>, n_bits: int, t: int)
    requires
        1 <= n_bits <= 8,
        1 <= payload.len(),
        HEADER_LEN <= carrier.len(),
        chunks_needed(payload.len() - 1, n_bits) <= carrier.len() - HEADER_LEN,
        0 <= t < 8 * (payload.len() - 1),
    ensures
        t < carrier_bits(embedded(carrier, payload, n_bits), n_bits).len(),
        carrier_bits(embedded(carrier, payload, n_bits), n_bits)[t] == bits_of(payload)[t],
{
    let e = embedded(carrier, payload, n_bits);
    let len = payload.len() - 1;
    let k = t / n_bits;
    let m = t % n_bits;
    lemma_fundamental_div_mod(t, n_bits);
    assert(0 <= k && k * n_bits <= t) by (nonlinear_arith)
        requires
            t == n_bits * k + m,
            0 <= m < n_bits,
            0 <= t,
    ;
    lemma_chunk_in_range(k, n_bits, len);
    lemma_carrier_bit(e, n_bits, k, m);
    lemma_merged_bit(carrier[HEADER_LEN + k], chunk_bits(payload, n_bits, k), n_bits - 1 - m);
}

/// What was embedded is what extraction gives: whatever the carrier held and
/// whatever the reserved last byte of `payload` is, a carrier that took the
/// hidden bytes gives them back.
pub proof fn lemma_round_trip(carrier: Seq<u8>, payload: Seq<u8>, n_bits: int)
    requires
        embed_outcome(carrier.len() as int, hidden_len(payload), n_bits) is Ok,
    ensures
        extracted(embedded(carrier, payload, n_bits), n_bits) == Ok::<Seq<u8>, StegoError>(
            payload.take(hidden_len(payload)),
        ),
{
    let e = embedded(carrier, payload, n_bits);
    let len = hidden_len(payload);
    assert(chunks_needed(len, n_bits) >= 0) by (nonlinear_arith)
        requires
            1 <= n_bits <= 8,
            len >= 0,
    ;
    lemma_embedded_header(carrier, payload, n_bits);
    lemma_length_within(carrier.len() as int, n_bits, len);
    let bits = carrier_bits(e, n_bits);
    let out = bytes_of(bits).subrange(0, len);
    assert forall|b: int| 0 <= b < len implies out[b] == payload[b] by {
        assert forall|r: int| 0 <= r < 8 implies bits.subrange(8 * b, 8 * b + 8)[r] == byte_bits(
            payload[b],
        )[r] by {
            lemma_embedded_bits(carrier, payload, n_bits, 8 * b + r);
        }
        assert(bits.subrange(8 * b, 8 * b + 8) =~= byte_bits(payload[b]));
        lemma_pack_byte_bits(payload[b]);
    }
    assert(out =~= payload.take(len));
}

/// At eight bits per carrier byte the windowed embedding writes the same
/// carrier as copying the hidden bytes behind the header.
pub proof fn lemma_byte_aligned_embedding(carrier: Seq<u8>, payload: Seq<u8>)
    ensures
        embedded(carrier, payload, 8) == byte_aligned(carrier, payload),
{
    let len = hidden_len(payload);
    assert forall|i: int| 0 <= i < carrier.len() implies embedded(carrier, payload, 8)[i]
        == byte_aligned(carrier, payload)[i] by {
        let k = i - HEADER_LEN;
        if 0 <= k < len {
            let chunk = chunk_bits(payload, 8, k);
            assert(byte_bits(carrier[i]).subrange(0, 8 - chunk.len()) + chunk =~= byte_bits(
                payload[k],
            ));
            lemma_pack_byte_bits(payload[k]);
        }
    }
    assert(embedded(carrier, payload, 8) =~= byte_aligned(carrier, payload));
}

/// At eight bits per carrier byte the carrier's bit stream is that of its
/// bytes behind the header, so extraction is a copy of them.
pub proof fn lemma_byte_aligned_extraction(carrier: Seq<u8>, len: int)
    requires
        0 <= len,
        HEADER_LEN + len <= carrier.len(),
    ensures
        bytes_of(carrier_bits(carrier, 8)).subrange(0, len) == carrier.subrange(
            HEADER_LEN as int,
            HEADER_LEN + len,
        ),
{
    let tail = carrier.subrange(HEADER_LEN as int, carrier.len() as int);
    assert(carrier_bits(carrier, 8) =~= bits_of(tail));
    lemma_bytes_of_bits_of(tail);
    assert(tail.subrange(0, len) =~= carrier.subrange(HEADER_LEN as int, HEADER_LEN + len));
}

/// After the first `m` values were written back through a permutation, each
/// of them stands where it was sent.
proof fn lemma_restored_holds(base: Seq<u8>, perm: Seq<usize>, values: Seq<u8>, m: nat)
    requires
        is_permutation(perm),
        perm.len() == base.len(),
        perm.len() == values.len(),
        m <= perm.len(),
    ensures
        restored(base, perm, values, m).len() == base.len(),
        forall|j: int|
            0 <= j < m ==> restored(base, perm, values, m)[#[trigger] perm[j] as int] == values[j],
    decreases m,
{
    if m > 0 {
        lemma_restored_holds(base, perm, values, (m - 1) as nat);
    }
}

/// Writing values back through a permutation and reading in its order again
/// gives the values.
pub proof fn lemma_restored_then_permuted(base: Seq<u8>, perm: Seq<usize>, values: Seq<u8>)
    requires
        is_permutation(perm),
        perm.len() == base.len(),
        perm.len() == values.len(),
    ensures
        permuted(restored(base, perm, values, perm.len()), perm) == values,
{
    lemma_restored_holds(base, perm, values, perm.len());
    assert(permuted(restored(base, perm, values, perm.len()), perm) =~= values);
}

/// A message embedded in the order of a permutation is read back by
/// extracting in the same order. The permutation that a key selects is one
/// such order.
pub proof fn lemma_keyed_round_trip(
    carrier: Seq<u8>,
    payload: Seq<u8>,
    n_bits: int,
    perm: Seq<usize>,
)
    requires
        embed_outcome(carrier.len() as int, hidden_len(payload), n_bits) is Ok,
        is_permutation(perm),
        perm.len() == carrier.len(),
    ensures
        extracted(permuted(keyed_embedded(carrier, payload, n_bits, perm), perm), n_bits) == Ok::<
            Seq<u8>,
            StegoError,
        >(payload.take(hidden_len(payload))),
{
    let scratch = permuted(carrier, perm);
    lemma_restored_then_permuted(carrier, perm, embedded(scratch, payload, n_bits));
    lemma_round_trip(scratch, payload, n_bits);
}

/// At a bit width that divides eight, every payload up to the capacity is
/// taken: its bits never fill more carrier bytes than there are behind the
/// header.
pub proof fn lemma_whole_width_fits(carrier_len: int, len: int, n_bits: int)
    requires
        0 <= carrier_len,
        n_bits == 1 || n_bits == 2 || n_bits == 4 || n_bits == 8,
        0 <= len <= capacity(carrier_len, n_bits),
        len <= u32::MAX,
    ensures
        embed_outcome(carrier_len, len, n_bits) is Ok,
{
    assert((n_bits == 1 ==> 8int / n_bits == 8) && (n_bits == 2 ==> 8int / n_bits == 4) && (n_bits
        == 4 ==> 8int / n_bits == 2) && (n_bits == 8 ==> 8int / n_bits == 1)) by (nonlinear_arith);
    if n_bits == 1 {
        assert(chunks_needed(len, 1) == 8 * len);
    } else if n_bits == 2 {
        assert(chunks_needed(len, 2) == 4 * len);
    } else if n_bits == 4 {
        assert(chunks_needed(len, 4) == 2 * len);
    } else {
        assert(chunks_needed(len, 8) == len);
    }
}

/// One byte more than the capacity is refused at every bit width. A payload
/// of exactly the capacity, where that is a length of 32 bits, is taken at a
/// width that divides eight; at the other widths it is taken where its bits
/// fill no more carrier bytes than there are behind the header.
pub proof fn lemma_capacity_boundary(carrier_len: int, n_bits: int)
    requires
        0 <= carrier_len,
        1 <= n_bits <= 8,
    ensures
        embed_outcome(carrier_len, capacity(carrier_len, n_bits) + 1, n_bits) == Err::<
            (),
            StegoError,
        >(StegoError::CapacityExceeded),
        0 <= capacity(carrier_len, n_bits) <= u32::MAX && (n_bits == 1 || n_bits == 2 || n_bits
            == 4 || n_bits == 8) ==> embed_outcome(
            carrier_len,
            capacity(carrier_len, n_bits),
            n_bits,
        ) is Ok,
        0 <= capacity(carrier_len, n_bits) <= u32::MAX && chunks_needed(
            capacity(carrier_len, n_bits),
            n_bits,
        ) <= carrier_len - HEADER_LEN ==> embed_outcome(
            carrier_len,
            capacity(carrier_len, n_bits),
            n_bits,
        ) is Ok,
{
    let cap = capacity(carrier_len, n_bits);
    if 0 <= cap <= u32::MAX && (n_bits == 1 || n_bits == 2 || n_bits == 4 || n_bits == 8) {
        lemma_whole_width_fits(carrier_len, cap, n_bits);
    }
}

/// Embedding changes nothing of a carrier byte but its lowest bit in the
/// header and its `n_bits` low bits behind it, and nothing at all of the
/// bytes behind the last chunk.
pub proof fn lemma_embedded_keeps_high_bits(
    carrier: Seq<u8>,
    payload: Seq<u8>,
    n_bits: int,
    i: int,
    j: int,
)
    requires
        1 <= n_bits <= 8,
        1 <= payload.len(),
        0 <= i < carrier.len(),
        0 <= j < 8,
        if i < HEADER_LEN {
            1 <= j
        } else {
            n_bits <= j
        },
    ensures
        bit(embedded(carrier, payload, n_bits)[i], j) == bit(carrier[i], j),
        i >= HEADER_LEN && (i - HEADER_LEN) * n_bits >= 8 * (payload.len() - 1) ==> embedded(
            carrier,
            payload,
            n_bits,
        )[i] == carrier[i],
{
    let k = i - HEADER_LEN;
    if i < HEADER_LEN {
        lemma_merged_bit(carrier[i], seq![length_bit((payload.len() - 1) as u32, i)], j);
    } else if k * n_bits < 8 * (payload.len() - 1) {
        assert(0 <= k * n_bits) by (nonlinear_arith)
            requires
                0 <= k,
                1 <= n_bits,
        ;
        lemma_merged_bit(carrier[i], chunk_bits(payload, n_bits, k), j);
    }
}

} // verus!
