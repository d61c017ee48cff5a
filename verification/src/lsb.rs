//! The pixel carrier: payload bits in the low bits of raw image samples.
//!
//! The first 32 carrier bytes hold the payload length, one bit each in the
//! lowest bit, least significant bit first. Every carrier byte after them
//! holds the next `n_bits` bits of the payload's bit stream in its low bits.

use vstd::prelude::*;
use rand::seq::SliceRandom;
use rand::SeedableRng;
use crate::bits::{bit, bits_of, byte_bits, bytes_of, lemma_byte_by_bits, lemma_masked_bit, pack};
use crate::error::StegoError;
use crate::lsb::lemmas::{
    lemma_header_step, lemma_low_bit_set, lemma_merged_bit, lemma_same_items_permutation,
    lemma_shifted_bit,
};
use crate::lsb::theorems::{lemma_byte_aligned_embedding, lemma_byte_aligned_extraction};

pub mod lemmas;
pub mod theorems;

verus! {

/// Carrier bytes reserved for the length, one bit each.
pub const HEADER_LEN: usize = 32;

/// Bit `i` of a length, counted from the least significant bit.
pub open spec fn length_bit(len: u32, i: int) -> bool {
    (len >> (i as u32)) & 1 == 1
}

/// How many payload bytes a carrier of `carrier_len` bytes is taken to hold
/// at `n_bits` bits per carrier byte: one for every `8 / n_bits` carrier
/// bytes, less the header. The quotient is a whole number, so at a width that
/// does not divide eight this can be more than the carrier bytes behind the
/// header have room for.
pub open spec fn capacity(carrier_len: int, n_bits: int) -> int {
    carrier_len / (8int / n_bits) - HEADER_LEN
}

/// How many carrier bytes the bits of `len` payload bytes fill at `n_bits`
/// bits each.
pub open spec fn chunks_needed(len: int, n_bits: int) -> int {
    (8 * len + n_bits - 1) / n_bits
}

/// Whether `len` payload bytes can be embedded, and the error if not. A
/// payload is refused where it is longer than the capacity, where its length
/// does not fit the 32 bits of the header, and where its bits would fill more
/// carrier bytes than there are behind the header.
pub open spec fn embed_outcome(carrier_len: int, len: int, n_bits: int) -> Result<(), StegoError> {
    if !(1 <= n_bits <= 8) {
        Err(StegoError::InvalidBitWidth)
    } else if len > capacity(carrier_len, n_bits) || len > u32::MAX || chunks_needed(len, n_bits)
        > carrier_len - HEADER_LEN {
        Err(StegoError::CapacityExceeded)
    } else {
        Ok(())
    }
}

/// How many bytes of `payload` are hidden: all but the reserved last one.
pub open spec fn hidden_len(payload: Seq<u8>) -> int {
    if payload.len() == 0 {
        0
    } else {
        payload.len() - 1
    }
}

/// `c` with its low bits replaced by `chunk`, the first bit of `chunk` highest.
pub open spec fn merged(c: u8, chunk: Seq<bool>) -> u8 {
    pack(byte_bits(c).subrange(0, 8 - chunk.len()) + chunk)
}

/// The `n_bits` payload bits that carrier byte `HEADER_LEN + k` receives.
pub open spec fn chunk_bits(payload: Seq<u8>, n_bits: int, k: int) -> Seq<bool> {
    bits_of(payload).subrange(k * n_bits, k * n_bits + n_bits)
}

/// Byte `i` of the carrier after embedding. `payload` is the hidden bytes
/// followed by one reserved byte, which only lends its leading bits to a last
/// chunk that the hidden bits do not fill.
pub open spec fn embedded_byte(carrier: Seq<u8>, payload: Seq<u8>, n_bits: int, i: int) -> u8 {
    let len = hidden_len(payload);
    if i < HEADER_LEN {
        merged(carrier[i], seq![length_bit(len as u32, i)])
    } else if (i - HEADER_LEN) * n_bits < 8 * len {
        merged(carrier[i], chunk_bits(payload, n_bits, i - HEADER_LEN))
    } else {
        carrier[i]
    }
}

/// The carrier after embedding all but the last byte of `payload`.
pub open spec fn embedded(carrier: Seq<u8>, payload: Seq<u8>, n_bits: int) -> Seq<u8> {
    Seq::new(carrier.len(), |i: int| embedded_byte(carrier, payload, n_bits, i))
}

/// The carrier after the byte-aligned embedding: the length in the header,
/// then the hidden bytes themselves.
pub open spec fn byte_aligned(carrier: Seq<u8>, payload: Seq<u8>) -> Seq<u8> {
    let len = hidden_len(payload);
    Seq::new(
        carrier.len(),
        |i: int|
            if i < HEADER_LEN {
                merged(carrier[i], seq![length_bit(len as u32, i)])
            } else if i - HEADER_LEN < len {
                payload[i - HEADER_LEN]
            } else {
                carrier[i]
            },
    )
}

/// The length that the lowest bits of the first `m` carrier bytes spell.
pub open spec fn header_value(carrier: Seq<u8>, m: nat) -> u32
    decreases m,
{
    if m == 0 {
        0
    } else {
        header_value(carrier, (m - 1) as nat) | (if bit(carrier[m - 1], 0) {
            1u32 << ((m - 1) as u32)
        } else {
            0u32
        })
    }
}

/// The payload length that a carrier announces.
pub open spec fn header_length(carrier: Seq<u8>) -> u32 {
    header_value(carrier, HEADER_LEN as nat)
}

/// The bit stream that a carrier holds behind its header at `n_bits` bits per
/// byte.
pub open spec fn carrier_bits(carrier: Seq<u8>, n_bits: int) -> Seq<bool> {
    Seq::new(
        ((carrier.len() - HEADER_LEN) * n_bits) as nat,
        |t: int| bit(carrier[HEADER_LEN + t / n_bits], n_bits - 1 - t % n_bits),
    )
}

/// What extraction gives for a carrier: the announced number of bytes of its
/// bit stream, or the reason why there is none.
pub open spec fn extracted(carrier: Seq<u8>, n_bits: int) -> Result<Seq<u8>, StegoError> {
    if !(1 <= n_bits <= 8) {
        Err(StegoError::InvalidBitWidth)
    } else if carrier.len() < HEADER_LEN || chunks_needed(header_length(carrier) as int, n_bits)
        > carrier.len() - HEADER_LEN {
        Err(StegoError::MalformedHeader)
    } else {
        Ok(bytes_of(carrier_bits(carrier, n_bits)).subrange(0, header_length(carrier) as int))
    }
}

/// The positions `0` to `n - 1` in order.
pub open spec fn identity(n: nat) -> Seq<usize> {
    Seq::new(n, |i: int| i as usize)
}

/// Whether `perm` names every position below its length exactly once.
pub open spec fn is_permutation(perm: Seq<usize>) -> bool {
    &&& forall|j: int| 0 <= j < perm.len() ==> #[trigger] perm[j] < perm.len()
    &&& perm.no_duplicates()
}

/// The carrier read in the order of `perm`.
pub open spec fn permuted(carrier: Seq<u8>, perm: Seq<usize>) -> Seq<u8> {
    Seq::new(perm.len(), |j: int| carrier[perm[j] as int])
}

/// `base` after the first `m` of `values` were written back, value `j` to
/// position `perm[j]`.
pub open spec fn restored(base: Seq<u8>, perm: Seq<usize>, values: Seq<u8>, m: nat) -> Seq<u8>
    decreases m,
{
    if m == 0 {
        base
    } else {
        restored(base, perm, values, (m - 1) as nat).update(perm[m - 1] as int, values[m - 1])
    }
}

/// The carrier after embedding in the order of `perm`: read in that order,
/// embedded, and written back to where each byte came from.
pub open spec fn keyed_embedded(
    carrier: Seq<u8>,
    payload: Seq<u8>,
    n_bits: int,
    perm: Seq<usize>,
) -> Seq<u8> {
    restored(carrier, perm, embedded(permuted(carrier, perm), payload, n_bits), perm.len())
}

/// The order in which a slice holding `items` is left by `rand`'s shuffle when
/// the generator is a ChaCha8 generator seeded with `key`.
pub uninterp spec fn shuffled(key: u64, items: Seq<usize>) -> Seq<usize>;

/// The carrier as the codec sees it: as it stands without a key, in the
/// key's order with one.
pub open spec fn keyed_view(carrier: Seq<u8>, key: Option<u64>) -> Seq<u8> {
    match key {
        None => carrier,
        Some(k) => permuted(carrier, shuffled(k, identity(carrier.len()))),
    }
}

/// Whether the order that `key` selects for a carrier of `carrier_len` bytes
/// names every position exactly once; without a key there is nothing to ask.
pub open spec fn key_order_is_permutation(carrier_len: nat, key: Option<u64>) -> bool {
    match key {
        None => true,
        Some(k) => is_permutation(shuffled(k, identity(carrier_len))) && shuffled(
            k,
            identity(carrier_len),
        ).len() == carrier_len,
    }
}

/// The carrier after embedding `payload` under `key`.
pub open spec fn embedded_under(
    carrier: Seq<u8>,
    payload: Seq<u8>,
    n_bits: int,
    key: Option<u64>,
) -> Seq<u8> {
    match key {
        None => embedded(carrier, payload, n_bits),
        Some(k) => keyed_embedded(carrier, payload, n_bits, shuffled(k, identity(carrier.len()))),
    }
}

/// The luminance that a bit plane shows for one sample: black where the bit
/// is set, white where it is clear.
pub open spec fn plane_value(sample: u8, b: int) -> u8 {
    if bit(sample, b) {
        0u8
    } else {
        255u8
    }
}

/// The capacity of a carrier of `carrier_len` bytes at `n_bits` bits per
/// carrier byte; none at a bit width outside 1 to 8, and none for a carrier
/// that is too short to hold anything behind its header.
pub fn payload_capacity(carrier_len: usize, n_bits: u8) -> (r: Option<usize>)
    ensures
        match r {
            Some(bytes) => 1 <= n_bits <= 8 && bytes == capacity(carrier_len as int, n_bits as int),
            None => !(1 <= n_bits <= 8) || capacity(carrier_len as int, n_bits as int) < 0,
        },
{
    if n_bits == 0 || n_bits > 8 {
        return None;
    }
    let per: usize = 8 / (n_bits as usize);
    assert(per >= 1) by (nonlinear_arith)
        requires
            1 <= n_bits <= 8,
            per == 8int / (n_bits as int),
    ;
    let slots: usize = carrier_len / per;
    if slots < HEADER_LEN {
        None
    } else {
        Some(slots - HEADER_LEN)
    }
}

/// Whether `len` payload bytes can be embedded in a carrier of `carrier_len`
/// bytes.
pub(crate) fn check_embed(carrier_len: usize, len: usize, n_bits: usize) -> (r: Result<
    (),
    StegoError,
>)
    ensures
        r == embed_outcome(carrier_len as int, len as int, n_bits as int),
{
    if n_bits == 0 || n_bits > 8 {
        return Err(StegoError::InvalidBitWidth);
    }
    if len > 0xFFFF_FFFF {
        return Err(StegoError::CapacityExceeded);
    }
    let per: usize = 8 / n_bits;
    assert(per >= 1) by (nonlinear_arith)
        requires
            1 <= n_bits <= 8,
            per == 8int / (n_bits as int),
    ;
    let slots: u64 = (carrier_len / per) as u64;
    let chunks: u64 = (8 * (len as u64) + (n_bits as u64) - 1) / (n_bits as u64);
    if slots < (len as u64) + 32 || (carrier_len as u64) < 32 + chunks {
        return Err(StegoError::CapacityExceeded);
    }
    Ok(())
}

/// Writes `len` into the lowest bits of the first 32 carrier bytes.
pub(crate) fn write_header(carrier: &mut [u8], len: u32)
    requires
        old(carrier)@.len() >= HEADER_LEN,
    ensures
        final(carrier)@.len() == old(carrier)@.len(),
        forall|i: int|
            0 <= i < HEADER_LEN ==> #[trigger] final(carrier)@[i] == merged(
                old(carrier)@[i],
                seq![length_bit(len, i)],
            ),
        forall|i: int|
            HEADER_LEN <= i < old(carrier)@.len() ==> #[trigger] final(carrier)@[i] == old(
                carrier,
            )@[i],
{
    let mut i: usize = 0;
    while i < HEADER_LEN
        invariant
            i <= HEADER_LEN,
            carrier@.len() == old(carrier)@.len(),
            carrier@.len() >= HEADER_LEN,
            forall|j: int|
                0 <= j < i ==> #[trigger] carrier@[j] == merged(
                    old(carrier)@[j],
                    seq![length_bit(len, j)],
                ),
            forall|j: int| i <= j < carrier@.len() ==> #[trigger] carrier@[j] == old(carrier)@[j],
        decreases HEADER_LEN - i,
    {
        let b: u8 = ((len >> (i as u32)) & 1) as u8;
        let c: u8 = carrier[i];
        let e: u8 = (c & 0xFE) | b;
        proof {
            lemma_shifted_bit(len, i as u32);
            let chunk = seq![length_bit(len, i as int)];
            assert forall|j: int| 0 <= j < 8 implies bit(e, j) == bit(merged(c, chunk), j) by {
                lemma_low_bit_set(c, b, j as u8);
                lemma_merged_bit(c, chunk, j);
            }
            lemma_byte_by_bits(e, merged(c, chunk));
        }
        carrier[i] = e;
        i += 1;
    }
}

/// Embeds all but the last byte of `payload` in `carrier`, taking the
/// byte-aligned path at eight bits per carrier byte.
///
/// The last byte of `payload` is reserved: it is not hidden and only serves
/// as look-ahead for the final window. A payload without any byte hides
/// nothing, as one of the reserved byte alone does.
pub fn raw_encode(payload: &[u8], carrier: &mut [u8], n_bits: usize) -> (r: Result<(), StegoError>)
    ensures
        r == embed_outcome(old(carrier)@.len() as int, hidden_len(payload@), n_bits as int),
        r is Ok ==> final(carrier)@ == embedded(old(carrier)@, payload@, n_bits as int),
        r is Err ==> final(carrier)@ == old(carrier)@,
{
    if n_bits != 8 {
        return crate::lsb_raw_encode(payload, carrier, n_bits);
    }
    let len: usize = if payload.len() == 0 {
        0
    } else {
        payload.len() - 1
    };
    match check_embed(carrier.len(), len, n_bits) {
        Err(e) => {
            return Err(e);
        },
        Ok(()) => {},
    }
    write_header(carrier, len as u32);
    let mut k: usize = 0;
    while k < len
        invariant
            k <= len,
            len == hidden_len(payload@),
            HEADER_LEN + len <= carrier@.len() <= usize::MAX,
            carrier@.len() == old(carrier)@.len(),
            forall|j: int|
                0 <= j < HEADER_LEN + k ==> #[trigger] carrier@[j] == byte_aligned(
                    old(carrier)@,
                    payload@,
                )[j],
            forall|j: int|
                HEADER_LEN + k <= j < carrier@.len() ==> #[trigger] carrier@[j] == old(carrier)@[j],
        decreases len - k,
    {
        carrier[HEADER_LEN + k] = payload[k];
        k += 1;
    }
    proof {
        assert(carrier@ =~= byte_aligned(old(carrier)@, payload@));
        lemma_byte_aligned_embedding(old(carrier)@, payload@);
    }
    Ok(())
}

/// Reads the length from the lowest bits of the first 32 carrier bytes.
pub(crate) fn read_header(carrier: &[u8]) -> (len: u32)
    requires
        carrier@.len() >= HEADER_LEN,
    ensures
        len == header_length(carrier@),
{
    let mut len: u32 = 0;
    let mut i: usize = 0;
    while i < HEADER_LEN
        invariant
            i <= HEADER_LEN,
            carrier@.len() >= HEADER_LEN,
            len == header_value(carrier@, i as nat),
        decreases HEADER_LEN - i,
    {
        proof {
            lemma_header_step(carrier@[i as int], i as u32);
        }
        len = len | (((carrier[i] & 1) as u32) << (i as u32));
        i += 1;
    }
    len
}

/// Whether the announced length can be read back from a carrier of
/// `carrier_len` bytes.
pub(crate) fn check_extract(carrier_len: usize, len: u32, n_bits: usize) -> (ok: bool)
    requires
        1 <= n_bits <= 8,
        carrier_len >= HEADER_LEN,
    ensures
        ok == (chunks_needed(len as int, n_bits as int) <= carrier_len - HEADER_LEN),
{
    let chunks: u64 = (8 * (len as u64) + (n_bits as u64) - 1) / (n_bits as u64);
    chunks <= (carrier_len - HEADER_LEN) as u64
}

/// Reads the hidden bytes back from `carrier`, taking the byte-aligned path
/// at eight bits per carrier byte.
pub fn raw_decode(carrier: &[u8], n_bits: usize) -> (r: Result<Vec<u8>, StegoError>)
    ensures
        match r {
            Ok(v) => extracted(carrier@, n_bits as int) == Ok::<Seq<u8>, StegoError>(v@),
            Err(e) => extracted(carrier@, n_bits as int) == Err::<Seq<u8>, StegoError>(e),
        },
{
    if n_bits != 8 {
        return crate::lsb_raw_decode(carrier, n_bits);
    }
    if carrier.len() < HEADER_LEN {
        return Err(StegoError::MalformedHeader);
    }
    let len: u32 = read_header(carrier);
    if !check_extract(carrier.len(), len, n_bits) {
        return Err(StegoError::MalformedHeader);
    }
    let count: usize = len as usize;
    let mut payload: Vec<u8> = Vec::with_capacity(count);
    let mut k: usize = 0;
    while k < count
        invariant
            k <= count,
            HEADER_LEN + count <= carrier@.len() <= usize::MAX,
            payload@ == carrier@.subrange(HEADER_LEN as int, HEADER_LEN + k),
        decreases count - k,
    {
        payload.push(carrier[HEADER_LEN + k]);
        k += 1;
        proof {
            assert(payload@ =~= carrier@.subrange(HEADER_LEN as int, HEADER_LEN + k));
        }
    }
    proof {
        lemma_byte_aligned_extraction(carrier@, count as int);
    }
    Ok(payload)
}

/// Shuffles `items` as the key dictates.
///
/// Calls `rand_chacha::ChaCha8Rng::seed_from_u64` and then
/// `rand::seq::SliceRandom::shuffle` on the slice. The generator is a
/// function of its seed and the shuffle only swaps elements of the slice, at
/// places that the generator and the length decide: so the outcome is a
/// function of the key and the items, and it holds the same items as before.
#[verifier::external_body]
fn shuffle_keyed(items: &mut Vec<usize>, key: u64)
    ensures
        final(items)@ == shuffled(key, old(items)@),
        final(items)@.to_multiset() == old(items)@.to_multiset(),
{
    let mut rng = rand_chacha::ChaCha8Rng::seed_from_u64(key);
    items.shuffle(&mut rng);
}

/// The positions of a carrier of `len` bytes in the order that `key` dictates.
pub fn keyed_permutation(key: u64, len: usize) -> (perm: Vec<usize>)
    ensures
        perm@ == shuffled(key, identity(len as nat)),
        perm@.len() == len,
        is_permutation(perm@),
{
    let mut perm: Vec<usize> = Vec::with_capacity(len);
    let mut i: usize = 0;
    while i < len
        invariant
            i <= len,
            perm@ == identity(i as nat),
        decreases len - i,
    {
        perm.push(i);
        i += 1;
        proof {
            assert(perm@ =~= identity(i as nat));
        }
    }
    shuffle_keyed(&mut perm, key);
    proof {
        lemma_same_items_permutation(perm@, len as nat);
    }
    perm
}

/// Reads `carrier` in the order of `perm`.
pub(crate) fn permute(carrier: &[u8], perm: &[usize]) -> (out: Vec<u8>)
    requires
        forall|j: int| 0 <= j < perm@.len() ==> #[trigger] perm@[j] < carrier@.len(),
    ensures
        out@ == permuted(carrier@, perm@),
{
    let mut out: Vec<u8> = Vec::with_capacity(perm.len());
    let mut j: usize = 0;
    while j < perm.len()
        invariant
            j <= perm@.len(),
            forall|j: int| 0 <= j < perm@.len() ==> #[trigger] perm@[j] < carrier@.len(),
            out@ == permuted(carrier@, perm@.subrange(0, j as int)),
        decreases perm@.len() - j,
    {
        out.push(carrier[perm[j]]);
        j += 1;
        proof {
            assert(out@ =~= permuted(carrier@, perm@.subrange(0, j as int)));
        }
    }
    proof {
        assert(perm@.subrange(0, j as int) =~= perm@);
    }
    out
}

/// Writes `values` back into `carrier`, value `j` to position `perm[j]`.
pub(crate) fn restore(carrier: &mut [u8], perm: &[usize], values: &[u8])
    requires
        perm@.len() == values@.len(),
        forall|j: int| 0 <= j < perm@.len() ==> #[trigger] perm@[j] < old(carrier)@.len(),
    ensures
        final(carrier)@ == restored(old(carrier)@, perm@, values@, perm@.len()),
{
    let mut j: usize = 0;
    while j < perm.len()
        invariant
            j <= perm@.len(),
            perm@.len() == values@.len(),
            carrier@.len() == old(carrier)@.len(),
            forall|j: int| 0 <= j < perm@.len() ==> #[trigger] perm@[j] < carrier@.len(),
            carrier@ == restored(old(carrier)@, perm@, values@, j as nat),
        decreases perm@.len() - j,
    {
        carrier[perm[j]] = values[j];
        j += 1;
    }
}

/// `message` followed by the reserved byte.
pub(crate) fn framed(message: &[u8]) -> (payload: Vec<u8>)
    ensures
        payload@ == message@.push(0u8),
{
    let mut payload: Vec<u8> = Vec::with_capacity(message.len());
    let mut i: usize = 0;
    while i < message.len()
        invariant
            i <= message@.len(),
            payload@ == message@.subrange(0, i as int),
        decreases message@.len() - i,
    {
        payload.push(message[i]);
        i += 1;
        proof {
            assert(payload@ =~= message@.subrange(0, i as int));
        }
    }
    payload.push(0);
    proof {
        assert(payload@ =~= message@.push(0u8));
    }
    payload
}

/// Hides `message` in `carrier` in the order of `perm`: carrier byte
/// `perm[j]` plays the part that byte `j` plays without a key.
///
/// Nothing is written unless the whole message fits.
pub fn encode_permuted(message: &[u8], carrier: &mut [u8], n_bits: u8, perm: &[usize]) -> (r:
    Result<(), StegoError>)
    requires
        is_permutation(perm@),
        perm@.len() == old(carrier)@.len(),
    ensures
        r == embed_outcome(old(carrier)@.len() as int, message@.len() as int, n_bits as int),
        r is Ok ==> final(carrier)@ == keyed_embedded(
            old(carrier)@,
            message@.push(0u8),
            n_bits as int,
            perm@,
        ),
        r is Err ==> final(carrier)@ == old(carrier)@,
{
    match check_embed(carrier.len(), message.len(), n_bits as usize) {
        Err(e) => {
            return Err(e);
        },
        Ok(()) => {},
    }
    let payload = framed(message);
    let mut scratch = permute(carrier, perm);
    let r = raw_encode(payload.as_slice(), scratch.as_mut_slice(), n_bits as usize);
    restore(carrier, perm, scratch.as_slice());
    r
}

/// Reads back what [`encode_permuted`] hid in `carrier` with the same
/// `n_bits` and `perm`.
pub fn decode_permuted(carrier: &[u8], n_bits: u8, perm: &[usize]) -> (r: Result<
    Vec<u8>,
    StegoError,
>)
    requires
        is_permutation(perm@),
        perm@.len() == carrier@.len(),
    ensures
        match r {
            Ok(v) => extracted(permuted(carrier@, perm@), n_bits as int) == Ok::<
                Seq<u8>,
                StegoError,
            >(v@),
            Err(e) => extracted(permuted(carrier@, perm@), n_bits as int) == Err::<
                Seq<u8>,
                StegoError,
            >(e),
        },
{
    let scratch = permute(carrier, perm);
    raw_decode(scratch.as_slice(), n_bits as usize)
}

/// Hides `message` in `carrier` at `n_bits` bits per carrier byte, in the
/// carrier's own order without a key and in the key's order with one.
///
/// Nothing is written unless the whole message fits.
pub fn encode(message: &[u8], carrier: &mut [u8], n_bits: u8, key: Option<u64>) -> (r: Result<
    (),
    StegoError,
>)
    ensures
        r == embed_outcome(old(carrier)@.len() as int, message@.len() as int, n_bits as int),
        r is Ok ==> final(carrier)@ == embedded_under(
            old(carrier)@,
            message@.push(0u8),
            n_bits as int,
            key,
        ),
        r is Ok ==> key_order_is_permutation(old(carrier)@.len(), key),
        r is Err ==> final(carrier)@ == old(carrier)@,
{
    match check_embed(carrier.len(), message.len(), n_bits as usize) {
        Err(e) => {
            return Err(e);
        },
        Ok(()) => {},
    }
    match key {
        None => {
            let payload = framed(message);
            raw_encode(payload.as_slice(), carrier, n_bits as usize)
        },
        Some(k) => {
            let perm = keyed_permutation(k, carrier.len());
            encode_permuted(message, carrier, n_bits, perm.as_slice())
        },
    }
}

/// Reads back what [`encode`] hid in `carrier` with the same `n_bits` and
/// `key`.
pub fn decode(carrier: &[u8], n_bits: u8, key: Option<u64>) -> (r: Result<Vec<u8>, StegoError>)
    ensures
        1 <= n_bits <= 8 ==> key_order_is_permutation(carrier@.len(), key),
        match r {
            Ok(v) => extracted(keyed_view(carrier@, key), n_bits as int) == Ok::<
                Seq<u8>,
                StegoError,
            >(v@),
            Err(e) => extracted(keyed_view(carrier@, key), n_bits as int) == Err::<
                Seq<u8>,
                StegoError,
            >(e),
        },
{
    if n_bits == 0 || n_bits > 8 {
        return Err(StegoError::InvalidBitWidth);
    }
    match key {
        None => raw_decode(carrier, n_bits as usize),
        Some(k) => {
            let perm = keyed_permutation(k, carrier.len());
            decode_permuted(carrier, n_bits, perm.as_slice())
        },
    }
}

/// The 24 bit planes of an image given as interleaved red, green and blue
/// samples: plane `8 * channel + b` holds, pixel by pixel, what bit `b` of
/// that channel shows. Samples behind the last whole pixel are ignored.
pub fn extract_bit_planes(samples: &[u8]) -> (planes: Vec<Vec<u8>>)
    ensures
        planes@.len() == 24,
        forall|q: int| 0 <= q < 24 ==> (#[trigger] planes@[q])@.len() == samples@.len() / 3,
        forall|q: int, p: int|
            0 <= q < 24 && 0 <= p < samples@.len() / 3 ==> #[trigger] planes@[q]@[p] == plane_value(
                samples@[3 * p + q / 8],
                q % 8,
            ),
{
    let pixels: usize = samples.len() / 3;
    let mut planes: Vec<Vec<u8>> = Vec::with_capacity(24);
    let mut q: usize = 0;
    while q < 24
        invariant
            q <= 24,
            pixels == samples@.len() / 3,
            samples@.len() <= usize::MAX,
            planes@.len() == q,
            forall|r: int| 0 <= r < q ==> (#[trigger] planes@[r])@.len() == pixels,
            forall|r: int, p: int|
                0 <= r < q && 0 <= p < pixels ==> #[trigger] planes@[r]@[p] == plane_value(
                    samples@[3 * p + r / 8],
                    r % 8,
                ),
        decreases 24 - q,
    {
        let channel: usize = q / 8;
        let b: u8 = (q % 8) as u8;
        let mut plane: Vec<u8> = Vec::with_capacity(pixels);
        let mut p: usize = 0;
        while p < pixels
            invariant
                p <= pixels,
                pixels == samples@.len() / 3,
                samples@.len() <= usize::MAX,
                channel == q / 8,
                b == q % 8,
                q < 24,
                plane@.len() == p,
                forall|t: int|
                    0 <= t < p ==> #[trigger] plane@[t] == plane_value(
                        samples@[3 * t + q / 8],
                        (q % 8) as int,
                    ),
            decreases pixels - p,
        {
            let sample: u8 = samples[3 * p + channel];
            proof {
                lemma_masked_bit(sample, b);
            }
            let value: u8 = if sample & (1u8 << b) == 0 {
                255
            } else {
                0
            };
            plane.push(value);
            p += 1;
        }
        planes.push(plane);
        q += 1;
    }
    planes
}

} // verus!
