//! What holds of the audio carrier as a whole.

use vstd::prelude::*;
use crate::bits::{bits_of, lemma_bytes_of_bits_of};
use crate::wav::{
    decoded, decoded_bits, lemma_ramp_value, middle, pair_bit, ramp, ramp_count, signal, tone,
};

verus! {

/// The bits of the first pairs depend on the samples of those pairs only.
proof fn lemma_decoded_bits_of_prefix(one: Seq<i16>, other: Seq<i16>, pairs: nat)
    requires
        forall|t: int| 0 <= t < 2 * pairs ==> one[t] == other[t],
    ensures
        decoded_bits(one, pairs) == decoded_bits(other, pairs),
    decreases pairs,
{
    if pairs > 0 {
        lemma_decoded_bits_of_prefix(one, other, (pairs - 1) as nat);
    }
}

/// No pair of a ramp stands for a bit, and the middle pair stands for the
/// bit of its tone.
proof fn lemma_tone_pair(b: bool, step: int, j: int)
    requires
        1 <= step,
        0 <= j < 2 * ramp_count(step) + 1,
    ensures
        tone(b, step).len() == 2 * (2 * ramp_count(step) + 1),
        pair_bit(tone(b, step)[2 * j], tone(b, step)[2 * j + 1]) == if j == ramp_count(step) {
            Some(b)
        } else {
            None
        },
{
    let count = ramp_count(step);
    assert(count >= 1) by (nonlinear_arith)
        requires
            count == 32765int / step + 1,
            1 <= step,
    ;
    if j < count {
        lemma_ramp_value(step, j);
        assert(tone(b, step)[2 * j] == ramp(b, step, true)[2 * j]);
        assert(tone(b, step)[2 * j + 1] == ramp(b, step, true)[2 * j + 1]);
    } else if j > count {
        let m = j - count - 1;
        lemma_ramp_value(step, m);
        assert(tone(b, step)[2 * j] == ramp(b, step, false)[2 * m]);
        assert(tone(b, step)[2 * j + 1] == ramp(b, step, false)[2 * m + 1]);
    } else {
        assert(tone(b, step)[2 * j] == middle(b)[0]);
        assert(tone(b, step)[2 * j + 1] == middle(b)[1]);
    }
}

/// Behind an even number of samples, the first `j` pairs of a tone add its
/// bit once the middle pair is among them.
proof fn lemma_decoded_bits_into_tone(before: Seq<i16>, b: bool, step: int, j: int)
    requires
        1 <= step,
        before.len() % 2 == 0,
        0 <= j <= 2 * ramp_count(step) + 1,
    ensures
        decoded_bits(before + tone(b, step), (before.len() / 2 + j) as nat) == if j > ramp_count(
            step,
        ) {
            decoded_bits(before, before.len() / 2).push(b)
        } else {
            decoded_bits(before, before.len() / 2)
        },
    decreases j,
{
    let all = before + tone(b, step);
    let pairs = before.len() / 2;
    if j == 0 {
        lemma_decoded_bits_of_prefix(all, before, pairs);
    } else {
        lemma_decoded_bits_into_tone(before, b, step, j - 1);
        lemma_tone_pair(b, step, j - 1);
        assert(all[2 * (pairs + j - 1)] == tone(b, step)[2 * (j - 1)]);
        assert(all[2 * (pairs + j - 1) + 1] == tone(b, step)[2 * (j - 1) + 1]);
    }
}

/// The signal of a bit stream reads back as that bit stream.
pub proof fn lemma_signal_bits(bits: Seq<bool>, step: int)
    requires
        1 <= step,
    ensures
        signal(bits, step).len() == bits.len() * (2 * (2 * ramp_count(step) + 1)),
        decoded_bits(signal(bits, step), signal(bits, step).len() / 2) == bits,
    decreases bits.len(),
{
    let per = 2 * ramp_count(step) + 1;
    if bits.len() == 0 {
        assert(decoded_bits(signal(bits, step), 0) =~= bits);
    } else {
        let before = signal(bits.drop_last(), step);
        lemma_signal_bits(bits.drop_last(), step);
        lemma_tone_pair(bits.last(), step, 0);
        assert(before.len() == (bits.len() - 1) * (2 * per));
        assert(bits.len() * (2 * per) == (bits.len() - 1) * (2 * per) + 2 * per)
            by (nonlinear_arith);
        let half = (bits.len() - 1) * per;
        assert((bits.len() - 1) * (2 * per) == 2 * half) by (nonlinear_arith)
            requires
                half == (bits.len() - 1) * per,
        ;
        assert(before.len() % 2 == 0 && before.len() / 2 == half);
        lemma_decoded_bits_into_tone(before, bits.last(), step, per);
        assert(bits.drop_last().push(bits.last()) =~= bits);
    }
}

/// What the encoder writes for a byte sequence, the decoder reads back as
/// that byte sequence, at any step between ramp values.
pub proof fn lemma_signal_round_trip(bytes: Seq<u8>, step: int)
    requires
        1 <= step,
    ensures
        decoded(signal(bits_of(bytes), step)) == bytes,
{
    lemma_signal_bits(bits_of(bytes), step);
    lemma_bytes_of_bits_of(bytes);
}

} // verus!
