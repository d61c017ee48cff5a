//! What holds of the instruction carrier as a whole.

use vstd::prelude::*;
use crate::binary::{
    carried_bit, carries_bit, embedded_words, extracted_from, framed_stream, inject_outcome,
    is_winnable,
    le_bytes, le_u32, lemma_le_bytes, lemma_word_bits_step, rm_of, rn_of, spliced, swapped,
    with_bit, word_bits, word_bytes, words_of, RM_MASK, RN_MASK,
};
use crate::bits::{bits_of, lemma_bytes_of_bits_of};
use crate::error::StegoError;

verus! {

/// Exchanging the registers exchanges the two fields and nothing else: the
/// word stays winnable or not as it was, and a second exchange gives the
/// first word back.
pub proof fn lemma_swapped(i: u32)
    by (bit_vector)
    ensures
        rm_of(swapped(i)) == rn_of(i),
        rn_of(swapped(i)) == rm_of(i),
        swapped(swapped(i)) == i,
        is_winnable(swapped(i)) == is_winnable(i),
        swapped(i) & !RM_MASK & !RN_MASK == i & !RM_MASK & !RN_MASK,
{
}

/// A carrying word made to hold a bit holds it, and still carries.
pub proof fn lemma_with_bit(i: u32, b: bool)
    requires
        carries_bit(i),
    ensures
        carries_bit(with_bit(i, b)),
        carried_bit(with_bit(i, b)) == b,
{
    lemma_swapped(i);
}

/// Reading the four bytes of a number gives the number.
pub proof fn lemma_le_round_trip(x: u32)
    ensures
        le_u32(le_bytes(x)) == x,
{
    lemma_le_bytes(x);
}

/// `base` with its first bits replaced by those of `stream`, as far as
/// `stream` goes.
pub open spec fn overlaid(base: Seq<bool>, stream: Seq<bool>) -> Seq<bool> {
    Seq::new(
        base.len(),
        |p: int|
            if p < stream.len() {
                stream[p]
            } else {
                base[p]
            },
    )
}

/// After embedding, the same words carry, and they carry the stream as far
/// as it goes.
pub proof fn lemma_embedded_word_bits(words: Seq<u32>, stream: Seq<bool>, k: int)
    requires
        0 <= k <= words.len(),
    ensures
        word_bits(embedded_words(words, stream).take(k)) == overlaid(
            word_bits(words.take(k)),
            stream,
        ),
    decreases k,
{
    let after = embedded_words(words, stream);
    if k == 0 {
        assert(after.take(0) =~= Seq::<u32>::empty());
        assert(words.take(0) =~= Seq::<u32>::empty());
        assert(word_bits(after.take(k)) =~= overlaid(word_bits(words.take(k)), stream));
    } else {
        lemma_embedded_word_bits(words, stream, k - 1);
        lemma_word_bits_step(words, k - 1);
        lemma_word_bits_step(after, k - 1);
        let at = word_bits(words.take(k - 1)).len() as int;
        if carries_bit(words[k - 1]) {
            if at < stream.len() {
                lemma_with_bit(words[k - 1], stream[at]);
            }
        }
        assert(word_bits(after.take(k)) =~= overlaid(word_bits(words.take(k)), stream));
    }
}

/// The stream of a payload begins with the bits of its length and goes on
/// with the bits of its bytes.
proof fn lemma_framed_stream_parts(payload: Seq<u8>)
    ensures
        framed_stream(payload).len() == 32 + 8 * payload.len(),
        framed_stream(payload).take(32) == bits_of(le_bytes(payload.len() as u32)),
        framed_stream(payload).subrange(32, 32 + 8 * (payload.len() as int)) == bits_of(payload),
{
    let head = le_bytes(payload.len() as u32);
    let stream = framed_stream(payload);
    assert(head.len() == 4);
    assert forall|t: int| 0 <= t < 32 implies stream[t] == bits_of(head)[t] by {
        assert((head + payload)[t / 8] == head[t / 8]);
    }
    assert(stream.take(32) =~= bits_of(head));
    assert forall|t: int| 0 <= t < 8 * payload.len() implies stream[32 + t] == bits_of(payload)[t] by {
        assert((32 + t) / 8 == 4 + t / 8 && (32 + t) % 8 == t % 8);
        assert((head + payload)[4 + t / 8] == payload[t / 8]);
    }
    assert(stream.subrange(32, 32 + 8 * (payload.len() as int)) =~= bits_of(payload));
}

/// A payload embedded in code words that can carry its whole stream is what
/// extraction reads back from them.
pub proof fn lemma_words_round_trip(words: Seq<u32>, payload: Seq<u8>)
    requires
        inject_outcome(words, payload) is Ok,
    ensures
        extracted_from(word_bits(embedded_words(words, framed_stream(payload)))) == Ok::<
            Seq<u8>,
            StegoError,
        >(payload),
{
    let stream = framed_stream(payload);
    let after = embedded_words(words, stream);
    let len = payload.len() as u32;
    lemma_framed_stream_parts(payload);
    lemma_embedded_word_bits(words, stream, words.len() as int);
    assert(words.take(words.len() as int) =~= words);
    assert(after.take(words.len() as int) =~= after);
    let bits = word_bits(after);
    assert(bits == overlaid(word_bits(words), stream));
    assert(bits.len() >= stream.len());
    assert(bits.take(32) =~= stream.take(32));
    lemma_bytes_of_bits_of(le_bytes(len));
    lemma_le_round_trip(len);
    assert(bits.subrange(32, 32 + 8 * len) =~= stream.subrange(32, 32 + 8 * len));
    lemma_bytes_of_bits_of(payload);
}

proof fn lemma_le_bytes_of_value(b0: u8, b1: u8, b2: u8, b3: u8)
    by (bit_vector)
    ensures
        (((b0 as u32) | ((b1 as u32) << 8u32) | ((b2 as u32) << 16u32) | ((b3 as u32) << 24u32))
            & 0xFF) as u8 == b0,
        ((((b0 as u32) | ((b1 as u32) << 8u32) | ((b2 as u32) << 16u32) | ((b3 as u32) << 24u32))
            >> 8u32) & 0xFF) as u8 == b1,
        ((((b0 as u32) | ((b1 as u32) << 8u32) | ((b2 as u32) << 16u32) | ((b3 as u32) << 24u32))
            >> 16u32) & 0xFF) as u8 == b2,
        ((((b0 as u32) | ((b1 as u32) << 8u32) | ((b2 as u32) << 16u32) | ((b3 as u32) << 24u32))
            >> 24u32) & 0xFF) as u8 == b3,
{
}

/// The bytes of the code words of a section are the section, as far as its
/// whole words go.
pub proof fn lemma_word_bytes_of_words(section: Seq<u8>)
    ensures
        word_bytes(words_of(section)) == section.take(4 * (section.len() as int / 4)),
{
    let back = word_bytes(words_of(section));
    assert forall|t: int| 0 <= t < back.len() implies back[t] == section[t] by {
        let k = t / 4;
        let four = section.subrange(4 * k, 4 * k + 4);
        lemma_le_bytes_of_value(four[0], four[1], four[2], four[3]);
    }
    assert(back =~= section.take(4 * (section.len() as int / 4)));
}

/// Injecting into a host binary changes no byte outside the whole code words
/// of its code section, and within them no byte of a word that carries no
/// bit or for which the stream has no bit left.
pub proof fn lemma_injected_elsewhere(
    buffer: Seq<u8>,
    offset: int,
    len: int,
    stream: Seq<bool>,
    i: int,
)
    requires
        0 <= offset,
        0 <= len,
        offset + len <= buffer.len(),
        0 <= i < buffer.len(),
        ({
            let words = words_of(buffer.subrange(offset, offset + len));
            let k = (i - offset) / 4;
            ||| i < offset
            ||| i >= offset + 4 * (len / 4)
            ||| !carries_bit(words[k])
            ||| word_bits(words.take(k)).len() >= stream.len()
        }),
    ensures
        spliced(
            buffer,
            offset,
            word_bytes(embedded_words(words_of(buffer.subrange(offset, offset + len)), stream)),
        )[i] == buffer[i],
{
    let section = buffer.subrange(offset, offset + len);
    let words = words_of(section);
    if offset <= i < offset + 4 * (len / 4) {
        let t = i - offset;
        lemma_word_bytes_of_words(section);
        assert(word_bytes(words)[t] == section.take(4 * (section.len() as int / 4))[t]);
        assert(embedded_words(words, stream)[t / 4] == words[t / 4]);
    }
}

} // verus!
