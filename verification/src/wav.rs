//! The audio carrier: each payload bit as a run of 16-bit samples.
//!
//! A zero bit is a ramp of sample pairs `(-i, i)` that rises, the pair of
//! the two extreme values, and the same ramp falling. A one bit is a flat run
//! of ones with the pair `(0, 0)` in its middle. Only the middle pairs are
//! read back; everything else is noise to the decoder. There is no length:
//! extraction reads to the end of the samples.

use vstd::prelude::*;
use crate::bits::{bit, bits_of, bytes_of, lemma_bit_of_pack, lemma_byte_by_bits, pack};
use crate::error::StegoError;

pub mod theorems;

verus! {

/// The number of channels of the audio carrier.
pub const CHANNELS: u16 = 1;

/// The samples per second of the audio carrier.
pub const SAMPLE_RATE: u32 = 44100;

/// The bits of one sample of the audio carrier.
pub const BITS_PER_SAMPLE: u16 = 16;

/// The distance between two ramp values in the signal of [`from_bytes`].
pub const STEP: i16 = 64;

/// How many pairs a ramp has at a given step: one for each of `1`,
/// `1 + step`, `1 + 2 * step` and so on below the largest sample value.
pub open spec fn ramp_count(step: int) -> int {
    32765int / step + 1
}

/// The magnitude of pair `m` of a ramp.
pub open spec fn ramp_value(step: int, rising: bool, m: int) -> int {
    if rising {
        1 + m * step
    } else {
        32766 - m * step
    }
}

/// One ramp of the pattern for `b`.
pub open spec fn ramp(b: bool, step: int, rising: bool) -> Seq<i16> {
    Seq::new(
        (2 * ramp_count(step)) as nat,
        |t: int|
            if b {
                1i16
            } else if t % 2 == 0 {
                (-ramp_value(step, rising, t / 2)) as i16
            } else {
                ramp_value(step, rising, t / 2) as i16
            },
    )
}

/// The pair in the middle of the pattern for `b`, the one that is read back.
pub open spec fn middle(b: bool) -> Seq<i16> {
    if b {
        seq![0i16, 0i16]
    } else {
        seq![i16::MIN, i16::MAX]
    }
}

/// The samples that stand for one bit.
pub open spec fn tone(b: bool, step: int) -> Seq<i16> {
    ramp(b, step, true) + middle(b) + ramp(b, step, false)
}

/// The samples that stand for a bit stream: one tone after the other.
pub open spec fn signal(bits: Seq<bool>, step: int) -> Seq<i16>
    decreases bits.len(),
{
    if bits.len() == 0 {
        Seq::empty()
    } else {
        signal(bits.drop_last(), step) + tone(bits.last(), step)
    }
}

/// The bit that a pair of samples stands for, if it stands for one.
pub open spec fn pair_bit(a: i16, b: i16) -> Option<bool> {
    if a == i16::MIN && b == i16::MAX {
        Some(false)
    } else if a == 0 && b == 0 {
        Some(true)
    } else {
        None
    }
}

/// The bits that the first `pairs` pairs of `samples` stand for.
pub open spec fn decoded_bits(samples: Seq<i16>, pairs: nat) -> Seq<bool>
    decreases pairs,
{
    if pairs == 0 {
        Seq::empty()
    } else {
        let rest = decoded_bits(samples, (pairs - 1) as nat);
        match pair_bit(samples[2 * (pairs - 1)], samples[2 * (pairs - 1) + 1]) {
            Some(b) => rest.push(b),
            None => rest,
        }
    }
}

/// The bytes that `samples` stand for: the whole bytes of the bits of its
/// pairs. A last sample without a partner and a tail of fewer than eight
/// bits are left out.
pub open spec fn decoded(samples: Seq<i16>) -> Seq<u8> {
    bytes_of(decoded_bits(samples, samples.len() / 2))
}

/// No pair of a ramp lies further than 32765 from the ramp's first value.
pub(crate) proof fn lemma_ramp_value(step: int, m: int)
    by (nonlinear_arith)
    requires
        1 <= step,
        0 <= m < ramp_count(step),
    ensures
        0 <= m * step <= 32765,
        (m + 1) * step == m * step + step,
{
    assert(m <= 32765int / step);
    assert((32765int / step) * step <= 32765);
}

/// Appends one ramp of the pattern for `b`.
fn push_ramp(out: &mut Vec<i16>, b: bool, step: i16, rising: bool)
    requires
        1 <= step,
    ensures
        final(out)@ == old(out)@ + ramp(b, step as int, rising),
{
    let count: i32 = 32765 / (step as i32) + 1;
    let mut m: i32 = 0;
    let mut offset: i32 = 0;
    proof {
        assert(out@ =~= old(out)@ + ramp(b, step as int, rising).take(0));
    }
    while m < count
        invariant
            1 <= step,
            count == ramp_count(step as int),
            0 <= m <= count,
            offset == m * step,
            out@ == old(out)@ + ramp(b, step as int, rising).take(2 * m),
        decreases count - m,
    {
        proof {
            lemma_ramp_value(step as int, m as int);
        }
        let i: i32 = if rising {
            1 + offset
        } else {
            32766 - offset
        };
        if b {
            out.push(1);
            out.push(1);
        } else {
            out.push((-i) as i16);
            out.push(i as i16);
        }
        m += 1;
        offset += step as i32;
        proof {
            assert(out@ =~= old(out)@ + ramp(b, step as int, rising).take(2 * m));
        }
    }
    proof {
        assert(ramp(b, step as int, rising).take(2 * m) =~= ramp(b, step as int, rising));
    }
}

/// The samples that stand for `bytes` at a given step between ramp values.
pub(crate) fn signal_samples(bytes: &[u8], step: i16) -> (out: Vec<i16>)
    requires
        1 <= step,
    ensures
        out@ == signal(bits_of(bytes@), step as int),
{
    let mut out: Vec<i16> = Vec::new();
    let ghost all = bits_of(bytes@);
    let mut k: usize = 0;
    proof {
        assert(all.take(0) =~= Seq::<bool>::empty());
    }
    while k < bytes.len()
        invariant
            1 <= step,
            k <= bytes@.len(),
            all == bits_of(bytes@),
            out@ == signal(all.take(8 * k), step as int),
        decreases bytes@.len() - k,
    {
        let byte: u8 = bytes[k];
        let mut i: u8 = 0;
        while i < 8
            invariant
                1 <= step,
                i <= 8,
                k < bytes@.len(),
                byte == bytes@[k as int],
                all == bits_of(bytes@),
                out@ == signal(all.take(8 * k + i), step as int),
            decreases 8 - i,
        {
            let b: bool = (byte >> (7 - i)) & 1 == 1;
            let ghost before = out@;
            push_ramp(&mut out, b, step, true);
            if b {
                out.push(0);
                out.push(0);
            } else {
                out.push(i16::MIN);
                out.push(i16::MAX);
            }
            push_ramp(&mut out, b, step, false);
            proof {
                let t = 8 * k + i;
                assert(all[t] == b);
                assert(all.take(t + 1).drop_last() =~= all.take(t));
                assert(out@ =~= before + tone(b, step as int));
            }
            i += 1;
        }
        k += 1;
    }
    proof {
        assert(all.take(8 * k) =~= all);
    }
    out
}

/// The samples that stand for `bytes`: 16-bit, one channel, the tones of
/// the bits of each byte, most significant bit first.
pub fn from_bytes(bytes: &[u8]) -> (samples: Vec<i16>)
    ensures
        samples@ == signal(bits_of(bytes@), STEP as int),
{
    signal_samples(bytes, STEP)
}

/// Shifting a bit into a byte from the right moves every bit held one place
/// up and puts the new bit lowest.
proof fn lemma_shift_in(byte: u8, b: bool, j: u8)
    by (bit_vector)
    requires
        j < 8,
    ensures
        ((((byte << 1u8) | (if b {
            1u8
        } else {
            0u8
        })) >> j) & 1 == 1) == (if j == 0 {
            b
        } else {
            (byte >> ((j - 1) as u8)) & 1 == 1
        }),
        (0u8 >> j) & 1 == 0,
        (byte << 1u8) | 0u8 == byte << 1u8,
{
}

/// The bits of one pair more are those before it and the pair's own.
proof fn lemma_decoded_bits_grow(samples: Seq<i16>, pairs: nat, earlier: nat)
    requires
        earlier <= pairs,
    ensures
        decoded_bits(samples, earlier).len() <= decoded_bits(samples, pairs).len(),
        decoded_bits(samples, pairs).take(decoded_bits(samples, earlier).len() as int)
            == decoded_bits(samples, earlier),
    decreases pairs - earlier,
{
    if earlier < pairs {
        lemma_decoded_bits_grow(samples, (pairs - 1) as nat, earlier);
    }
    assert(decoded_bits(samples, pairs).take(decoded_bits(samples, earlier).len() as int)
        =~= decoded_bits(samples, earlier));
}

/// Reads the bytes that `samples` stand for: takes the samples two by two,
/// a bit from each pair that stands for one, and closes a byte with every
/// eighth bit.
pub fn decode_samples(samples: &[i16]) -> (bytes: Vec<u8>)
    ensures
        bytes@ == decoded(samples@),
{
    let total: usize = samples.len();
    let pairs: usize = total / 2;
    let mut bytes: Vec<u8> = Vec::new();
    let mut byte: u8 = 0;
    let mut bits_read: u8 = 0;
    let mut q: usize = 0;
    proof {
        assert forall|j: int| 0 <= j < 8 implies !#[trigger] bit(0u8, j) by {
            lemma_shift_in(0, false, j as u8);
        }
    }
    while q < pairs
        invariant
            q <= pairs,
            total == samples@.len(),
            pairs == total / 2,
            bits_read < 8,
            decoded_bits(samples@, q as nat).len() == 8 * bytes@.len() + bits_read,
            forall|n: int|
                0 <= n < bytes@.len() ==> #[trigger] bytes@[n] == bytes_of(
                    decoded_bits(samples@, q as nat),
                )[n],
            forall|j: int|
                0 <= j < 8 ==> #[trigger] bit(byte, j) == (j < bits_read && decoded_bits(
                    samples@,
                    q as nat,
                )[8 * bytes@.len() + bits_read - 1 - j]),
            forall|j: int| 0 <= j < 8 ==> !#[trigger] bit(0u8, j),
        decreases pairs - q,
    {
        let a: i16 = samples[2 * q];
        let b: i16 = samples[2 * q + 1];
        let ghost before = decoded_bits(samples@, q as nat);
        let ghost after = decoded_bits(samples@, (q + 1) as nat);
        let ghost held = byte;
        proof {
            lemma_decoded_bits_grow(samples@, (q + 1) as nat, q as nat);
            assert forall|n: int| 0 <= n < bytes@.len() implies bytes_of(after)[n] == bytes_of(
                before,
            )[n] by {
                assert(after.subrange(8 * n, 8 * n + 8) =~= before.subrange(8 * n, 8 * n + 8));
            }
        }
        if a == i16::MIN && b == i16::MAX {
            byte = byte << 1;
            bits_read += 1;
            proof {
                assert(after == before.push(false));
                assert forall|j: int| 0 <= j < 8 implies #[trigger] bit(byte, j) == (j < bits_read
                    && after[8 * bytes@.len() + bits_read - 1 - j]) by {
                    lemma_shift_in(held, false, j as u8);
                    if j > 0 {
                        assert(bit(held, j - 1) == (j - 1 < bits_read - 1 && before[8
                            * bytes@.len() + bits_read - 1 - j]));
                    }
                }
            }
        } else if a == 0 && b == 0 {
            byte = (byte << 1) | 1;
            bits_read += 1;
            proof {
                assert(after == before.push(true));
                assert forall|j: int| 0 <= j < 8 implies #[trigger] bit(byte, j) == (j < bits_read
                    && after[8 * bytes@.len() + bits_read - 1 - j]) by {
                    lemma_shift_in(held, true, j as u8);
                    if j > 0 {
                        assert(bit(held, j - 1) == (j - 1 < bits_read - 1 && before[8
                            * bytes@.len() + bits_read - 1 - j]));
                    }
                }
            }
        }
        proof {
            if !(a == i16::MIN && b == i16::MAX) && !(a == 0 && b == 0) {
                assert(after == before);
            }
        }
        if bits_read == 8 {
            proof {
                let n = bytes@.len() as int;
                let s = after.subrange(8 * n, 8 * n + 8);
                assert forall|j: int| 0 <= j < 8 implies bit(byte, j) == bit(pack(s), j) by {
                    lemma_bit_of_pack(s, j);
                }
                lemma_byte_by_bits(byte, pack(s));
            }
            bytes.push(byte);
            byte = 0;
            bits_read = 0;
        }
        q += 1;
    }
    proof {
        assert(bytes@ =~= decoded(samples@));
    }
    bytes
}

/// `hound::Error`, the error of hound's reader. It is handed on unread:
/// every such error means that the file gave no samples.
#[verifier::external_type_specification]
#[verifier::external_body]
pub struct ExHoundError(hound::Error);

/// The samples that `hound` reads as `i16` values from `bytes` taken as a WAV
/// file, where it can read them all.
pub uninterp spec fn wav_samples_of(bytes: Seq<u8>) -> Option<Seq<i16>>;

/// Reads all samples of the WAV file `bytes`.
///
/// Calls `hound::WavReader::new` on the bytes and collects what
/// `WavReader::samples::<i16>` yields. Both read nothing but `bytes`; an
/// error of either is handed on.
#[verifier::external_body]
fn read_wav_samples(bytes: &[u8]) -> (r: Result<Vec<i16>, hound::Error>)
    ensures
        match r {
            Ok(samples) => wav_samples_of(bytes@) == Some(samples@),
            Err(_) => wav_samples_of(bytes@).is_none(),
        },
{
    let mut reader = hound::WavReader::new(bytes)?;
    reader.samples::<i16>().collect::<Result<Vec<i16>, hound::Error>>()
}

/// Reads the bytes hidden in the samples of the WAV file `bytes`. A file
/// that cannot be read as 16-bit samples gives `EncodingError`.
pub fn to_bytes(bytes: &[u8]) -> (r: Result<Vec<u8>, StegoError>)
    ensures
        match wav_samples_of(bytes@) {
            Some(samples) => r matches Ok(v) && v@ == decoded(samples),
            None => r == Err::<Vec<u8>, StegoError>(StegoError::EncodingError),
        },
{
    match read_wav_samples(bytes) {
        Ok(samples) => Ok(decode_samples(samples.as_slice())),
        Err(_) => Err(StegoError::EncodingError),
    }
}

} // verus!
