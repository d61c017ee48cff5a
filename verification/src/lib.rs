//! Hiding a byte payload inside a carrier and recovering it exactly.
//!
//! Three carriers share one bit-serialisation: the low bits of raw image
//! samples ([`lsb`]), the operand order of commutative machine instructions
//! ([`binary`]) and a two-symbol sample pattern in audio ([`wav`]).

pub mod binary;
pub mod bits;
pub mod cipher;
pub mod error;
pub mod lsb;
pub mod passphrase;
pub mod wav;

use vstd::prelude::*;
use crate::error::StegoError;
use crate::bits::bytes_of;
use crate::lsb::lemmas::{
    gathered, lemma_chunk_in_range, lemma_chunk_past_end, lemma_gather_full, lemma_gather_rest,
    lemma_gather_step, lemma_length_within, lemma_nothing_gathered, lemma_window_merged,
};
use crate::lsb::{
    carrier_bits, check_embed, check_extract, chunks_needed, embed_outcome, embedded,
    embedded_byte, embedded_under, extracted, framed, hidden_len, key_order_is_permutation,
    keyed_permutation, keyed_view, permute,
    read_header, restore, write_header, HEADER_LEN,
};
use crate::wav::{decoded, signal, signal_samples, wav_samples_of};

verus! {

/// Embeds all but the last byte of `payload` in `carrier`, always by sliding
/// an `n_bits`-wide window over the payload's bits.
///
/// The last byte of `payload` is reserved: it is not hidden and only serves
/// as look-ahead for the final window. A payload without any byte hides
/// nothing, as one of the reserved byte alone does.
pub fn lsb_raw_encode(payload: &[u8], carrier: &mut [u8], n_bits: usize) -> (r: Result<
    (),
    StegoError,
>)
    ensures
        r == embed_outcome(old(carrier)@.len() as int, hidden_len(payload@), n_bits as int),
        r is Ok ==> final(carrier)@ == embedded(old(carrier)@, payload@, n_bits as int),
        r is Err ==> final(carrier)@ == old(carrier)@,
{
    let len: usize = if payload.len() == 0 {
        0
    } else {
        payload.len() - 1
    };
    match check_embed(carrier.len(), len, n_bits) {
        Err(e) => {
            return Err(e);
        },
        Ok(()) => {},
    }
    write_header(carrier, len as u32);
    let n: u32 = n_bits as u32;
    let total_bits: u64 = 8 * (len as u64);
    let mut bit_index: u64 = 0;
    let mut i: usize = HEADER_LEN;
    while bit_index < total_bits
        invariant
            1 <= n <= 8,
            n == n_bits,
            len == hidden_len(payload@),
            len <= u32::MAX,
            total_bits == 8 * len,
            HEADER_LEN <= i,
            bit_index == (i - HEADER_LEN) * n,
            bit_index < total_bits + 8,
            carrier@.len() == old(carrier)@.len(),
            chunks_needed(len as int, n as int) <= carrier@.len() - HEADER_LEN,
            forall|j: int|
                0 <= j < i ==> #[trigger] carrier@[j] == embedded_byte(
                    old(carrier)@,
                    payload@,
                    n as int,
                    j,
                ),
            forall|j: int| i <= j < carrier@.len() ==> #[trigger] carrier@[j] == old(carrier)@[j],
        decreases total_bits + 8 - bit_index,
    {
        proof {
            lemma_chunk_in_range(i - HEADER_LEN, n as int, len as int);
        }
        let idx: usize = (bit_index / 8) as usize;
        let off: u32 = (bit_index % 8) as u32;
        let window: u32 = ((payload[idx] as u32) << 8) | (payload[idx + 1] as u32);
        let mask: u32 = 0xFFu32 >> (8 - n);
        let shift: u32 = 16 - n - off;
        let chunk: u32 = (window >> shift) & mask;
        let c: u8 = carrier[i];
        let kept: u32 = (c as u32) & (0xFFu32 << n);
        proof {
            lemma_window_merged(payload@, c, n as int, bit_index as int);
        }
        let e: u8 = (kept | chunk) as u8;
        carrier[i] = e;
        bit_index += n as u64;
        i += 1;
    }
    proof {
        assert forall|j: int| 0 <= j < carrier@.len() implies carrier@[j] == embedded(
            old(carrier)@,
            payload@,
            n as int,
        )[j] by {
            if j >= i {
                lemma_chunk_past_end(i - HEADER_LEN, j - HEADER_LEN, n as int, len as int);
            }
        }
        assert(carrier@ =~= embedded(old(carrier)@, payload@, n as int));
    }
    Ok(())
}

/// Reads the hidden bytes back from `carrier`, always by gathering the
/// `n_bits` low bits of one carrier byte after the other.
pub fn lsb_raw_decode(carrier: &[u8], n_bits: usize) -> (r: Result<Vec<u8>, StegoError>)
    ensures
        match r {
            Ok(v) => extracted(carrier@, n_bits as int) == Ok::<Seq<u8>, StegoError>(v@),
            Err(e) => extracted(carrier@, n_bits as int) == Err::<Seq<u8>, StegoError>(e),
        },
{
    if n_bits == 0 || n_bits > 8 {
        return Err(StegoError::InvalidBitWidth);
    }
    if carrier.len() < HEADER_LEN {
        return Err(StegoError::MalformedHeader);
    }
    let len: u32 = read_header(carrier);
    if !check_extract(carrier.len(), len, n_bits) {
        return Err(StegoError::MalformedHeader);
    }
    let n: u32 = n_bits as u32;
    let ghost bits = carrier_bits(carrier@, n as int);
    proof {
        lemma_length_within(carrier@.len() as int, n as int, len as int);
        lemma_nothing_gathered(bits, 0);
    }
    let mut payload: Vec<u8> = Vec::with_capacity(len as usize);
    let mut byte: u32 = 0;
    let mut bits_read: u32 = 0;
    let mut i: usize = HEADER_LEN;
    while payload.len() < len as usize
        invariant
            1 <= n <= 8,
            bits == carrier_bits(carrier@, n as int),
            HEADER_LEN <= i <= carrier@.len(),
            chunks_needed(len as int, n as int) <= carrier@.len() - HEADER_LEN,
            8 * len <= bits.len(),
            payload@.len() <= len,
            bits_read < 8,
            8 * payload@.len() + bits_read == (i - HEADER_LEN) * n,
            gathered(byte, bits_read as int, bits, (i - HEADER_LEN) * n),
            forall|b: int| 0 <= b < payload@.len() ==> #[trigger] payload@[b] == bytes_of(bits)[b],
        decreases carrier@.len() - i,
    {
        let ghost k = i - HEADER_LEN;
        proof {
            lemma_chunk_in_range(k, n as int, len as int);
        }
        let c: u8 = carrier[i];
        let take: u32 = if n < 8 - bits_read {
            n
        } else {
            8 - bits_read
        };
        proof {
            lemma_gather_step(carrier@, n as int, k, byte, bits_read as int, take as int);
        }
        byte = (byte << take) | (((c as u32) >> (n - take)) & (0xFFu32 >> (8 - take)));
        bits_read += take;
        if bits_read == 8 {
            proof {
                lemma_gather_full(bits, byte, payload@.len() as int);
            }
            payload.push(byte as u8);
            byte = 0;
            bits_read = 0;
            proof {
                lemma_nothing_gathered(bits, k * n + take);
            }
        }
        if take < n {
            bits_read = n - take;
            proof {
                lemma_gather_rest(carrier@, n as int, k, bits_read as int);
            }
            byte = (c as u32) & (0xFFu32 >> (8 - bits_read));
        }
        i += 1;
    }
    proof {
        assert(payload@ =~= bytes_of(bits).subrange(0, len as int));
    }
    Ok(payload)
}

/// Hides `message` in `carrier` as [`lsb::encode`] does, but always by the
/// windowed path of [`lsb_raw_encode`].
pub fn lsb_encode(message: &[u8], carrier: &mut [u8], n_bits: u8, key: Option<u64>) -> (r: Result<
    (),
    StegoError,
>)
    ensures
        r == embed_outcome(old(carrier)@.len() as int, message@.len() as int, n_bits as int),
        r is Ok ==> final(carrier)@ == embedded_under(
            old(carrier)@,
            message@.push(0u8),
            n_bits as int,
            key,
        ),
        r is Ok ==> key_order_is_permutation(old(carrier)@.len(), key),
        r is Err ==> final(carrier)@ == old(carrier)@,
{
    match check_embed(carrier.len(), message.len(), n_bits as usize) {
        Err(e) => {
            return Err(e);
        },
        Ok(()) => {},
    }
    let payload = framed(message);
    match key {
        None => lsb_raw_encode(payload.as_slice(), carrier, n_bits as usize),
        Some(k) => {
            let perm = keyed_permutation(k, carrier.len());
            let mut scratch = permute(carrier, perm.as_slice());
            let r = lsb_raw_encode(payload.as_slice(), scratch.as_mut_slice(), n_bits as usize);
            restore(carrier, perm.as_slice(), scratch.as_slice());
            r
        },
    }
}

/// Reads back what [`lsb_encode`] hid, always by the windowed path of
/// [`lsb_raw_decode`].
pub fn lsb_decode(carrier: &[u8], n_bits: u8, key: Option<u64>) -> (r: Result<Vec<u8>, StegoError>)
    ensures
        1 <= n_bits <= 8 ==> key_order_is_permutation(carrier@.len(), key),
        match r {
            Ok(v) => extracted(keyed_view(carrier@, key), n_bits as int) == Ok::<
                Seq<u8>,
                StegoError,
            >(v@),
            Err(e) => extracted(keyed_view(carrier@, key), n_bits as int) == Err::<
                Seq<u8>,
                StegoError,
            >(e),
        },
{
    if n_bits == 0 || n_bits > 8 {
        return Err(StegoError::InvalidBitWidth);
    }
    match key {
        None => lsb_raw_decode(carrier, n_bits as usize),
        Some(k) => {
            let perm = keyed_permutation(k, carrier.len());
            let scratch = permute(carrier, perm.as_slice());
            lsb_raw_decode(scratch.as_slice(), n_bits as usize)
        },
    }
}

/// The distance between two ramp values in the signal of [`bytes_to_wav`].
pub const WAV_STEP: i16 = 32;

/// The samples that stand for `bytes`, as [`wav::from_bytes`] gives them but
/// with ramps of twice as many pairs.
pub fn bytes_to_wav(bytes: &[u8]) -> (samples: Vec<i16>)
    ensures
        samples@ == signal(crate::bits::bits_of(bytes@), WAV_STEP as int),
{
    signal_samples(bytes, WAV_STEP)
}

/// Reads the bytes hidden in the samples of the WAV file `bytes`. A file
/// that cannot be read as 16-bit samples gives `EncodingError`.
pub fn wav_to_bytes(bytes: &[u8]) -> (r: Result<Vec<u8>, StegoError>)
    ensures
        match wav_samples_of(bytes@) {
            Some(samples) => r matches Ok(v) && v@ == decoded(samples),
            None => r == Err::<Vec<u8>, StegoError>(StegoError::EncodingError),
        },
{
    crate::wav::to_bytes(bytes)
}

} // verus!
