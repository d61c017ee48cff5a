//! The instruction carrier: one payload bit in the operand order of each
//! commutative two-register instruction of a code section.
//!
//! The bit stream is the payload length as four little-endian bytes followed
//! by the payload, each byte most significant bit first. A code word whose two
//! source registers differ carries a one when the register in the `Rm` field
//! is the larger, a zero when it is the smaller.

use vstd::prelude::*;
use crate::binary::macho::{code_region, locate_code};
use crate::bits::{bit, bits_of, bytes_of, lemma_bytes_of_bits_of, lemma_masked_bit};
use crate::error::StegoError;

pub mod macho;
pub mod theorems;

verus! {

/// A single pass over the bits of a byte slice, most significant bit first.
pub struct Biterator<'a> {
    bytes: &'a [u8],
    index: usize,
    bit: u8,
}

impl<'a> Biterator<'a> {
    /// Whether the cursor is within its slice.
    pub closed spec fn wf(&self) -> bool {
        self.index <= self.bytes@.len() && self.bit <= 8
    }

    /// The bits that are still to come.
    pub closed spec fn remaining(&self) -> Seq<bool> {
        if self.index < self.bytes@.len() {
            bits_of(self.bytes@).skip(8 * self.index + 8 - self.bit)
        } else {
            Seq::empty()
        }
    }

    /// A pass that starts at the first bit of `bytes`.
    pub fn new(bytes: &'a [u8]) -> (r: Self)
        ensures
            r.wf(),
            r.remaining() == bits_of(bytes@),
    {
        proof {
            assert(bits_of(bytes@).skip(0) =~= bits_of(bytes@));
            assert(bytes@.len() == 0 ==> bits_of(bytes@) =~= Seq::<bool>::empty());
        }
        Self { bytes, index: 0, bit: 8 }
    }

    /// The next bit, or `None` once the slice is used up.
    pub fn next(&mut self) -> (r: Option<bool>)
        requires
            old(self).wf(),
        ensures
            final(self).wf(),
            match r {
                Some(b) => old(self).remaining().len() > 0 && b == old(self).remaining()[0]
                    && final(self).remaining() == old(self).remaining().skip(1),
                None => old(self).remaining().len() == 0 && final(self).remaining().len() == 0,
            },
    {
        if self.index >= self.bytes.len() {
            return None;
        }
        if self.bit == 0 {
            self.bit = 8;
            self.index += 1;
        }
        self.bit -= 1;
        if self.index >= self.bytes.len() {
            return None;
        }
        let byte: u8 = self.bytes[self.index];
        proof {
            lemma_masked_bit(byte, self.bit);
            let all = bits_of(self.bytes@);
            let at = 8 * self.index + 7 - self.bit;
            assert(old(self).remaining() =~= all.skip(at));
            assert(self.remaining() =~= all.skip(at).skip(1));
        }
        Some(byte & (1u8 << self.bit) != 0)
    }
}

/// `bits` filled up with zero bits to a whole number of bytes.
pub open spec fn padded(bits: Seq<bool>) -> Seq<bool> {
    bits + Seq::new(((8 - bits.len() % 8) % 8) as nat, |i: int| false)
}

/// Bits packed into bytes, most significant bit first.
pub struct Binit {
    bytes: Vec<u8>,
    bit: u8,
}

impl Binit {
    /// Whether the unused low bits of the last byte are clear.
    pub closed spec fn wf(&self) -> bool {
        &&& self.bit < 8
        &&& self.bytes@.len() == 0 ==> self.bit == 0
        &&& forall|j: int|
            0 <= j < self.bit ==> !#[trigger] bit(self.bytes@[self.bytes@.len() - 1], j)
    }

    /// The bits added so far and not yet taken as a length.
    pub closed spec fn bits(&self) -> Seq<bool> {
        bits_of(self.bytes@).take(8 * self.bytes@.len() - self.bit)
    }

    /// Packs `value` behind the bits added so far.
    pub fn add(&mut self, value: bool)
        requires
            old(self).wf(),
        ensures
            final(self).wf(),
            final(self).bits() == old(self).bits().push(value),
    {
        if self.bit == 0 {
            self.bit = 8;
            self.bytes.push(0);
        }
        self.bit -= 1;
        let last: usize = self.bytes.len() - 1;
        let before: u8 = self.bytes[last];
        let after: u8 = if value {
            before | (1u8 << self.bit)
        } else {
            before
        };
        self.bytes[last] = after;
        proof {
            let place = self.bit;
            assert forall|j: int| 0 <= j < 8 implies bit(after, j) == (if j == place {
                value
            } else {
                bit(before, j)
            }) by {
                lemma_bit_added(before, place, j as u8);
                if j < place + 1 {
                    if old(self).bit == 0 {
                        lemma_bit_added(0, 0, j as u8);
                    }
                }
            }
            lemma_zero_bits();
            assert(self.bits() =~= old(self).bits().push(value));
        }
    }

    /// The bytes packed so far; a last byte that is not full counts with
    /// zero bits in the places still open.
    pub fn complete(&self) -> (r: Option<&[u8]>)
        requires
            self.wf(),
        ensures
            r matches Some(bytes) && bytes@ == bytes_of(padded(self.bits())),
    {
        proof {
            let all = bits_of(self.bytes@);
            let held = self.bits();
            let n = self.bytes@.len() as int;
            assert(held.len() == 8 * n - self.bit);
            assert((8 - held.len() % 8) % 8 == self.bit);
            assert forall|t: int| held.len() <= t < all.len() implies all[t] == false by {
                assert(t / 8 == n - 1);
                assert(!bit(self.bytes@[n - 1], 7 - t % 8));
            }
            assert(padded(held) =~= all);
            lemma_bytes_of_bits_of(self.bytes@);
        }
        Some(self.bytes.as_slice())
    }

    /// Once at least 32 bits are held and they end on a byte boundary, takes
    /// the first four bytes out as a little-endian length; until then holds
    /// on to everything.
    pub fn len(&mut self) -> (r: Option<u32>)
        requires
            old(self).wf(),
        ensures
            final(self).wf(),
            match r {
                Some(l) => old(self).bits().len() >= 32 && old(self).bits().len() % 8 == 0 && l
                    == le_u32(bytes_of(old(self).bits().take(32))) && final(self).bits() == old(
                    self,
                ).bits().skip(32),
                None => !(old(self).bits().len() >= 32 && old(self).bits().len() % 8 == 0)
                    && final(self).bits() == old(self).bits(),
            },
    {
        if self.bytes.len() >= 4 && self.bit == 0 {
            let len: u32 = (self.bytes[0] as u32) | ((self.bytes[1] as u32) << 8) | ((
            self.bytes[2] as u32) << 16) | ((self.bytes[3] as u32) << 24);
            let mut rest: Vec<u8> = Vec::with_capacity(self.bytes.len() - 4);
            let mut i: usize = 4;
            while i < self.bytes.len()
                invariant
                    4 <= i <= self.bytes@.len(),
                    rest@ == self.bytes@.subrange(4, i as int),
                decreases self.bytes@.len() - i,
            {
                rest.push(self.bytes[i]);
                i += 1;
                proof {
                    assert(rest@ =~= self.bytes@.subrange(4, i as int));
                }
            }
            proof {
                let all = old(self).bytes@;
                assert(old(self).bits() =~= bits_of(all));
                assert(bits_of(all).take(32) =~= bits_of(all.take(4)));
                lemma_bytes_of_bits_of(all.take(4));
                assert(bits_of(rest@) =~= bits_of(all).skip(32));
                assert(bits_of(rest@).take(8 * (rest@.len() as int)) =~= bits_of(rest@));
            }
            self.bytes = rest;
            Some(len)
        } else {
            None
        }
    }
}

impl Default for Binit {
    /// An accumulator that holds no bits.
    fn default() -> (r: Self)
        ensures
            r.wf(),
            r.bits() == Seq::<bool>::empty(),
    {
        let r = Binit { bytes: Vec::new(), bit: 0 };
        proof {
            assert(r.bits() =~= Seq::<bool>::empty());
        }
        r
    }
}

/// Setting one bit of a byte sets that bit and no other.
proof fn lemma_bit_added(x: u8, place: u8, j: u8)
    by (bit_vector)
    requires
        place < 8,
        j < 8,
    ensures
        (((x | (1u8 << place)) >> j) & 1 == 1) == (j == place || (x >> j) & 1 == 1),
        (0u8 >> j) & 1 == 0,
{
}

/// The zero byte has no bit set.
proof fn lemma_zero_bits()
    ensures
        forall|j: int| 0 <= j < 8 ==> !#[trigger] bit(0u8, j),
{
    assert forall|j: int| 0 <= j < 8 implies !#[trigger] bit(0u8, j) by {
        lemma_bit_added(0, 0, j as u8);
    }
}

/// ADD and ADDS of two registers, shifted-register form with no shift.
pub const ADD_MASK: u32 = 0b0_1_0_11111_11_1_00000_111111_00000_00000;

pub const ADD: u32 = 0b0_0_0_01011_00_0_00000_000000_00000_00000;

/// ADC and ADCS.
pub const ADC_MASK: u32 = 0b0_1_0_11111111_00000_111111_00000_00000;

pub const ADC: u32 = 0b0_0_0_11010000_00000_000000_00000_00000;

/// AND and ANDS of two registers, shifted-register form with no shift.
pub const AND_MASK: u32 = 0b0_00_11111_11_1_00000_111111_00000_00000;

pub const AND: u32 = 0b0_00_01010_00_0_00000_000000_00000_00000;

/// ORR of two registers, shifted-register form with no shift.
pub const ORR_MASK: u32 = 0b0_11_11111_11_1_00000_111111_00000_00000;

pub const ORR: u32 = 0b0_01_01010_00_0_00000_000000_00000_00000;

/// EOR of two registers, shifted-register form with no shift.
pub const EOR_MASK: u32 = 0b0_11_11111_11_1_00000_111111_00000_00000;

pub const EOR: u32 = 0b0_10_01010_00_0_00000_000000_00000_00000;

/// The field of the second source register.
pub const RM_MASK: u32 = 0b0_0_0_00000_00_0_11111_000000_00000_00000;

/// The field of the first source register.
pub const RN_MASK: u32 = 0b0_0_0_00000_00_0_00000_000000_11111_00000;

/// Whether the bits of `i` that `mask` selects are those of `pattern`.
pub open spec fn matches_template(i: u32, mask: u32, pattern: u32) -> bool {
    i & mask == pattern
}

/// Whether `i` is one of the five commutative two-register instructions.
pub open spec fn is_winnable(i: u32) -> bool {
    ||| matches_template(i, ADD_MASK, ADD)
    ||| matches_template(i, ADC_MASK, ADC)
    ||| matches_template(i, AND_MASK, AND)
    ||| matches_template(i, ORR_MASK, ORR)
    ||| matches_template(i, EOR_MASK, EOR)
}

/// The register number in the `Rm` field.
pub open spec fn rm_of(i: u32) -> u32 {
    (i & RM_MASK) >> 16u32
}

/// The register number in the `Rn` field.
pub open spec fn rn_of(i: u32) -> u32 {
    (i & RN_MASK) >> 5u32
}

/// `i` with the contents of its two register fields exchanged.
pub open spec fn swapped(i: u32) -> u32 {
    i & !RM_MASK & !RN_MASK | (rn_of(i) << 16u32) | (rm_of(i) << 5u32)
}

/// Whether `i` carries a bit: it is winnable and its two registers differ.
pub open spec fn carries_bit(i: u32) -> bool {
    is_winnable(i) && rm_of(i) != rn_of(i)
}

/// The bit that a carrying word holds.
pub open spec fn carried_bit(i: u32) -> bool {
    rm_of(i) > rn_of(i)
}

/// `i` made to hold `b`: as it is where it holds `b` already, with its
/// registers exchanged where it does not.
pub open spec fn with_bit(i: u32, b: bool) -> u32 {
    if carried_bit(i) == b {
        i
    } else {
        swapped(i)
    }
}

/// The bits that the carrying words of `words` hold, in address order.
pub open spec fn word_bits(words: Seq<u32>) -> Seq<bool>
    decreases words.len(),
{
    if words.len() == 0 {
        Seq::empty()
    } else if carries_bit(words.last()) {
        word_bits(words.drop_last()).push(carried_bit(words.last()))
    } else {
        word_bits(words.drop_last())
    }
}

/// Word `k` after embedding `stream`: a carrying word for which the stream
/// still has a bit is made to hold it, every other word is left as it is.
pub open spec fn embedded_word(words: Seq<u32>, stream: Seq<bool>, k: int) -> u32 {
    let at = word_bits(words.take(k)).len() as int;
    if carries_bit(words[k]) && at < stream.len() {
        with_bit(words[k], stream[at])
    } else {
        words[k]
    }
}

/// The code words after embedding `stream`.
pub open spec fn embedded_words(words: Seq<u32>, stream: Seq<bool>) -> Seq<u32> {
    Seq::new(words.len(), |k: int| embedded_word(words, stream, k))
}

/// The value of four bytes read as a little-endian number.
pub open spec fn le_u32(b: Seq<u8>) -> u32 {
    (b[0] as u32) | ((b[1] as u32) << 8u32) | ((b[2] as u32) << 16u32) | ((b[3] as u32) << 24u32)
}

/// The four bytes of `x`, least significant first.
pub open spec fn le_bytes(x: u32) -> Seq<u8> {
    seq![
        (x & 0xFF) as u8,
        ((x >> 8u32) & 0xFF) as u8,
        ((x >> 16u32) & 0xFF) as u8,
        ((x >> 24u32) & 0xFF) as u8,
    ]
}

/// The bit stream that stands for `payload`: its length, then its bytes.
pub open spec fn framed_stream(payload: Seq<u8>) -> Seq<bool> {
    bits_of(le_bytes(payload.len() as u32) + payload)
}

/// What a bit stream read from a carrier stands for: the payload that its
/// first 32 bits announce, or `MalformedHeader` where the stream ends before
/// the length or before the last announced byte.
pub open spec fn extracted_from(bits: Seq<bool>) -> Result<Seq<u8>, StegoError> {
    if bits.len() < 32 {
        Err(StegoError::MalformedHeader)
    } else {
        let len = le_u32(bytes_of(bits.take(32)));
        if bits.len() < 32 + 8 * len {
            Err(StegoError::MalformedHeader)
        } else {
            Ok(bytes_of(bits.subrange(32, 32 + 8 * len)))
        }
    }
}

/// The code words of a section: each four bytes read as a little-endian
/// number. Bytes behind the last whole word belong to none.
pub open spec fn words_of(section: Seq<u8>) -> Seq<u32> {
    Seq::new(section.len() / 4, |k: int| le_u32(section.subrange(4 * k, 4 * k + 4)))
}

/// The bytes of code words, each least significant byte first.
pub open spec fn word_bytes(words: Seq<u32>) -> Seq<u8> {
    Seq::new(4 * words.len(), |t: int| le_bytes(words[t / 4])[t % 4])
}

/// `base` with `part` in place of the bytes from position `at`.
pub open spec fn spliced(base: Seq<u8>, at: int, part: Seq<u8>) -> Seq<u8> {
    Seq::new(
        base.len(),
        |i: int|
            if at <= i < at + part.len() {
                part[i - at]
            } else {
                base[i]
            },
    )
}

/// Whether `i` is one of the five commutative two-register instructions.
pub fn winnable_instruction(i: u32) -> (r: bool)
    ensures
        r == is_winnable(i),
{
    if (i & ADD_MASK) == ADD {
        return true;
    }
    if (i & ADC_MASK) == ADC {
        return true;
    }
    if (i & AND_MASK) == AND {
        return true;
    }
    if (i & ORR_MASK) == ORR {
        return true;
    }
    if (i & EOR_MASK) == EOR {
        return true;
    }
    false
}

/// Each of the four bytes of a number fits a byte, and together they give the
/// number back.
pub(crate) proof fn lemma_le_bytes(x: u32)
    by (bit_vector)
    ensures
        x & 0xFF < 256,
        (x >> 8u32) & 0xFF < 256,
        (x >> 16u32) & 0xFF < 256,
        (x >> 24u32) & 0xFF < 256,
        ((x & 0xFF) as u8 as u32) | ((((x >> 8u32) & 0xFF) as u8 as u32) << 8u32) | ((((x >> 16u32)
            & 0xFF) as u8 as u32) << 16u32) | ((((x >> 24u32) & 0xFF) as u8 as u32) << 24u32) == x,
{
}

/// Frames `payload` for the instruction carrier: its length as four
/// little-endian bytes, then its bytes.
pub fn frame(payload: &[u8]) -> (framed: Vec<u8>)
    requires
        payload@.len() <= u32::MAX,
    ensures
        framed@ == le_bytes(payload@.len() as u32) + payload@,
{
    let len: u32 = payload.len() as u32;
    proof {
        lemma_le_bytes(len);
    }
    let mut framed: Vec<u8> = Vec::with_capacity(payload.len());
    framed.push((len & 0xFF) as u8);
    framed.push(((len >> 8) & 0xFF) as u8);
    framed.push(((len >> 16) & 0xFF) as u8);
    framed.push(((len >> 24) & 0xFF) as u8);
    let mut i: usize = 0;
    while i < payload.len()
        invariant
            i <= payload@.len(),
            framed@ == le_bytes(len) + payload@.subrange(0, i as int),
        decreases payload@.len() - i,
    {
        framed.push(payload[i]);
        i += 1;
        proof {
            assert(framed@ =~= le_bytes(len) + payload@.subrange(0, i as int));
        }
    }
    proof {
        assert(payload@.subrange(0, i as int) =~= payload@);
    }
    framed
}

/// One word more adds its bit, if it carries one, to the bits of the words
/// before it.
pub(crate) proof fn lemma_word_bits_step(words: Seq<u32>, k: int)
    requires
        0 <= k < words.len(),
    ensures
        word_bits(words.take(k + 1)) == if carries_bit(words[k]) {
            word_bits(words.take(k)).push(carried_bit(words[k]))
        } else {
            word_bits(words.take(k))
        },
{
    assert(words.take(k + 1).drop_last() =~= words.take(k));
}

/// Whether `words` can take the stream of `payload`: refused are a payload
/// whose length does not fit the four length bytes, and one whose stream has
/// more bits than there are carrying words.
pub open spec fn inject_outcome(words: Seq<u32>, payload: Seq<u8>) -> Result<(), StegoError> {
    if payload.len() > u32::MAX || framed_stream(payload).len() > word_bits(words).len() {
        Err(StegoError::CapacityExceeded)
    } else {
        Ok(())
    }
}

/// Whether `words` carry at least `needed` bits.
pub fn can_carry(words: &[u32], needed: u64) -> (r: bool)
    ensures
        r == (word_bits(words@).len() >= needed),
{
    let mut carried: u64 = 0;
    let mut k: usize = 0;
    proof {
        assert(words@.take(0) =~= Seq::<u32>::empty());
    }
    while k < words.len() && carried < needed
        invariant
            k <= words@.len(),
            carried == word_bits(words@.take(k as int)).len(),
            carried <= needed,
        decreases words@.len() - k,
    {
        let instruction: u32 = words[k];
        proof {
            lemma_word_bits_step(words@, k as int);
        }
        if winnable_instruction(instruction) {
            let rm: u32 = (instruction & RM_MASK) >> 16;
            let rn: u32 = (instruction & RN_MASK) >> 5;
            if rm != rn {
                carried += 1;
            }
        }
        k += 1;
    }
    proof {
        lemma_word_bits_prefix(words@, k as int, words@.len() as int);
        assert(words@.take(words@.len() as int) =~= words@);
    }
    carried >= needed
}

/// Embeds the length of `payload` and then `payload` in the operand order of
/// the carrying words, in address order. Words that carry no bit, and
/// carrying words behind the end of the stream, stay as they are.
///
/// The carrying words are counted first: where they cannot take the whole
/// stream, no word is changed.
pub fn inject_words(words: &mut Vec<u32>, payload: &[u8]) -> (r: Result<(), StegoError>)
    ensures
        r == inject_outcome(old(words)@, payload@),
        r is Ok ==> final(words)@ == embedded_words(old(words)@, framed_stream(payload@)),
        r is Err ==> final(words)@ == old(words)@,
        forall|k: int|
            0 <= k < old(words)@.len() && !carries_bit(old(words)@[k]) ==> final(words)@[k] == old(
                words,
            )@[k],
{
    if payload.len() > 0xFFFF_FFFF {
        return Err(StegoError::CapacityExceeded);
    }
    let needed: u64 = 8 * (4 + payload.len() as u64);
    if !can_carry(words.as_slice(), needed) {
        return Err(StegoError::CapacityExceeded);
    }
    let framed = frame(payload);
    let ghost stream = framed_stream(payload@);
    let mut biterator = Biterator::new(framed.as_slice());
    let mut k: usize = 0;
    proof {
        assert(old(words)@.take(0) =~= Seq::<u32>::empty());
        assert(stream.skip(0) =~= stream);
    }
    while k < words.len()
        invariant
            k <= words@.len(),
            words@.len() == old(words)@.len(),
            stream == framed_stream(payload@),
            biterator.wf(),
            biterator.remaining() == stream.skip(
                if word_bits(old(words)@.take(k as int)).len() < stream.len() {
                    word_bits(old(words)@.take(k as int)).len() as int
                } else {
                    stream.len() as int
                },
            ),
            forall|j: int|
                0 <= j < k ==> #[trigger] words@[j] == embedded_word(old(words)@, stream, j),
            forall|j: int| k <= j < words@.len() ==> #[trigger] words@[j] == old(words)@[j],
        decreases words@.len() - k,
    {
        let instruction: u32 = words[k];
        let ghost at = word_bits(old(words)@.take(k as int)).len() as int;
        proof {
            lemma_word_bits_step(old(words)@, k as int);
        }
        if winnable_instruction(instruction) {
            let rm: u32 = (instruction & RM_MASK) >> 16;
            let rn: u32 = (instruction & RN_MASK) >> 5;
            if rm != rn {
                proof {
                    if at < stream.len() {
                        assert(stream.skip(at).skip(1) =~= stream.skip(at + 1));
                    }
                }
                let flipped: u32 = instruction & !RM_MASK & !RN_MASK | (rn << 16) | (rm << 5);
                match biterator.next() {
                    Some(true) => {
                        if rm < rn {
                            words[k] = flipped;
                        }
                    },
                    Some(false) => {
                        if rm > rn {
                            words[k] = flipped;
                        }
                    },
                    None => {},
                }
            }
        }
        k += 1;
    }
    proof {
        assert(old(words)@.take(k as int) =~= old(words)@);
        assert(words@ =~= embedded_words(old(words)@, stream));
    }
    Ok(())
}

/// The bits of the first `k` words begin the bits of the first `j`.
proof fn lemma_word_bits_prefix(words: Seq<u32>, k: int, j: int)
    requires
        0 <= k <= j <= words.len(),
    ensures
        word_bits(words.take(k)).len() <= word_bits(words.take(j)).len(),
        word_bits(words.take(j)).take(word_bits(words.take(k)).len() as int) == word_bits(
            words.take(k),
        ),
    decreases j - k,
{
    if k == j {
        assert(word_bits(words.take(j)).take(word_bits(words.take(k)).len() as int) =~= word_bits(
            words.take(k),
        ));
    } else {
        lemma_word_bits_prefix(words, k, j - 1);
        lemma_word_bits_step(words, j - 1);
        assert(word_bits(words.take(j)).take(word_bits(words.take(k)).len() as int) =~= word_bits(
            words.take(k),
        ));
    }
}

/// Reads back what [`inject_words`] embedded: gathers the bits of the
/// carrying words until the length is complete, then until the announced
/// bytes are.
pub fn extract_words(words: &[u32]) -> (r: Result<Vec<u8>, StegoError>)
    ensures
        match r {
            Ok(v) => extracted_from(word_bits(words@)) == Ok::<Seq<u8>, StegoError>(v@),
            Err(e) => extracted_from(word_bits(words@)) == Err::<Seq<u8>, StegoError>(e),
        },
{
    let mut binit = Binit::default();
    let mut len: Option<u32> = None;
    let mut read: u64 = 0;
    let mut k: usize = 0;
    proof {
        assert(words@.take(0) =~= Seq::<u32>::empty());
    }
    loop
        invariant
            k <= words@.len(),
            binit.wf(),
            match len {
                None => binit.bits() == word_bits(words@.take(k as int)) && binit.bits().len()
                    <= 32 && read == 0,
                Some(l) => word_bits(words@.take(k as int)).len() == 32 + read && l == le_u32(
                    bytes_of(word_bits(words@.take(k as int)).take(32)),
                ) && binit.bits() == word_bits(words@.take(k as int)).skip(32) && read <= 8 * l,
            },
        ensures
            match len {
                None => k == words@.len() && word_bits(words@.take(k as int)).len() < 32,
                Some(l) => read == 8 * l || k == words@.len(),
            },
        decreases words@.len() - k,
    {
        if len.is_none() {
            match binit.len() {
                Some(l) => {
                    proof {
                        let bits = word_bits(words@.take(k as int));
                        assert(bits.take(32) =~= bits);
                    }
                    len = Some(l);
                },
                None => {},
            }
        }
        match len {
            Some(l) => {
                if read == 8 * (l as u64) {
                    break;
                }
            },
            None => {},
        }
        if k >= words.len() {
            break;
        }
        let instruction: u32 = words[k];
        proof {
            lemma_word_bits_step(words@, k as int);
        }
        if winnable_instruction(instruction) {
            let rm: u32 = (instruction & RM_MASK) >> 16;
            let rn: u32 = (instruction & RN_MASK) >> 5;
            if rm != rn {
                proof {
                    let bits = word_bits(words@.take(k as int));
                    let b = carried_bit(instruction);
                    if len is Some {
                        assert(bits.push(b).skip(32) =~= bits.skip(32).push(b));
                        assert(bits.push(b).take(32) =~= bits.take(32));
                    }
                }
                binit.add(rm > rn);
                if len.is_some() {
                    read += 1;
                }
            }
        }
        k += 1;
    }
    proof {
        lemma_word_bits_prefix(words@, k as int, words@.len() as int);
        assert(words@.take(words@.len() as int) =~= words@);
        let seen = word_bits(words@.take(k as int));
        let all = word_bits(words@);
        if seen.len() >= 32 {
            assert(all.take(32) =~= seen.take(32));
        }
    }
    match len {
        None => Err(StegoError::MalformedHeader),
        Some(l) => {
            if read < 8 * (l as u64) {
                Err(StegoError::MalformedHeader)
            } else {
                proof {
                    let seen = word_bits(words@.take(k as int));
                    let all = word_bits(words@);
                    assert(seen.skip(32) =~= all.subrange(32, 32 + 8 * l));
                    assert(padded(binit.bits()) =~= binit.bits());
                }
                match binit.complete() {
                    Some(bytes) => Ok(vstd::slice::slice_to_vec(bytes)),
                    None => Err(StegoError::MalformedHeader),
                }
            }
        },
    }
}

/// Reads the code words of the section of `size` bytes at `offset`.
pub fn read_words(bytes: &[u8], offset: usize, size: usize) -> (words: Vec<u32>)
    requires
        offset + size <= bytes@.len(),
    ensures
        words@ == words_of(bytes@.subrange(offset as int, offset + size)),
{
    let count: usize = size / 4;
    let total: usize = bytes.len();
    let ghost section = bytes@.subrange(offset as int, offset + size);
    let mut words: Vec<u32> = Vec::with_capacity(count);
    let mut k: usize = 0;
    while k < count
        invariant
            k <= count,
            count == size / 4,
            offset + size <= bytes@.len() == total,
            section == bytes@.subrange(offset as int, offset + size),
            words@ == words_of(section).take(k as int),
        decreases count - k,
    {
        let at: usize = offset + 4 * k;
        let word: u32 = (bytes[at] as u32) | ((bytes[at + 1] as u32) << 8) | ((bytes[at + 2] as u32)
            << 16) | ((bytes[at + 3] as u32) << 24);
        proof {
            let four = section.subrange(4 * k, 4 * k + 4);
            assert(four[0] == bytes@[at as int] && four[1] == bytes@[at + 1] && four[2] == bytes@[at
                + 2] && four[3] == bytes@[at + 3]);
        }
        words.push(word);
        k += 1;
        proof {
            assert(words@ =~= words_of(section).take(k as int));
        }
    }
    proof {
        assert(words_of(section).take(k as int) =~= words_of(section));
    }
    words
}

/// Writes `words` over the bytes of `buffer` from `offset`.
pub fn write_words(buffer: &mut [u8], offset: usize, words: &Vec<u32>)
    requires
        offset + 4 * words@.len() <= old(buffer)@.len(),
    ensures
        final(buffer)@ == spliced(old(buffer)@, offset as int, word_bytes(words@)),
{
    let total: usize = buffer.len();
    let mut k: usize = 0;
    proof {
        assert(buffer@ =~= spliced(buffer@, offset as int, word_bytes(words@.take(0))));
    }
    while k < words.len()
        invariant
            k <= words@.len(),
            buffer@.len() == old(buffer)@.len(),
            offset + 4 * words@.len() <= buffer@.len() == total,
            buffer@ == spliced(old(buffer)@, offset as int, word_bytes(words@.take(k as int))),
        decreases words@.len() - k,
    {
        let word: u32 = words[k];
        let at: usize = offset + 4 * k;
        proof {
            lemma_le_bytes(word);
        }
        buffer[at] = (word & 0xFF) as u8;
        buffer[at + 1] = ((word >> 8) & 0xFF) as u8;
        buffer[at + 2] = ((word >> 16) & 0xFF) as u8;
        buffer[at + 3] = ((word >> 24) & 0xFF) as u8;
        k += 1;
        proof {
            let before = word_bytes(words@.take(k - 1));
            let now = word_bytes(words@.take(k as int));
            assert forall|t: int| 0 <= t < now.len() implies now[t] == if t < before.len() {
                before[t]
            } else {
                le_bytes(word)[t - before.len()]
            } by {
                assert(words@.take(k as int)[t / 4] == words@[t / 4]);
                if t < before.len() {
                    assert(words@.take(k - 1)[t / 4] == words@[t / 4]);
                }
            }
            assert(buffer@ =~= spliced(old(buffer)@, offset as int, now));
        }
    }
    proof {
        assert(words@.take(k as int) =~= words@);
    }
}

/// Embeds `string_to_inject` in the code of the host binary held in
/// `buffer`. A buffer in which no code is found, or whose code cannot take
/// the whole stream, is left as it is.
pub fn inject_string(buffer: &mut [u8], string_to_inject: &[u8]) -> (r: Result<(), StegoError>)
    ensures
        r is Err ==> final(buffer)@ == old(buffer)@,
        match code_region(old(buffer)@) {
            Err(e) => r == Err::<(), StegoError>(e),
            Ok((offset, len)) => {
                let words = words_of(old(buffer)@.subrange(offset as int, offset + len));
                &&& r == inject_outcome(words, string_to_inject@)
                &&& r is Ok ==> final(buffer)@ == spliced(
                    old(buffer)@,
                    offset as int,
                    word_bytes(embedded_words(words, framed_stream(string_to_inject@))),
                )
            },
        },
{
    let (offset, len) = match locate_code(buffer) {
        Ok(region) => region,
        Err(e) => {
            return Err(e);
        },
    };
    let mut words = read_words(buffer, offset, len);
    match inject_words(&mut words, string_to_inject) {
        Ok(()) => {
            write_words(buffer, offset, &words);
            Ok(())
        },
        Err(e) => Err(e),
    }
}

/// Reads back what [`inject_string`] embedded in the code of the host binary
/// `bytes`.
pub fn extract_string(bytes: &[u8]) -> (r: Result<Vec<u8>, StegoError>)
    ensures
        match code_region(bytes@) {
            Err(e) => r == Err::<Vec<u8>, StegoError>(e),
            Ok((offset, len)) => {
                let words = words_of(bytes@.subrange(offset as int, offset + len));
                match r {
                    Ok(v) => extracted_from(word_bits(words)) == Ok::<Seq<u8>, StegoError>(v@),
                    Err(e) => extracted_from(word_bits(words)) == Err::<Seq<u8>, StegoError>(e),
                }
            },
        },
{
    let (offset, len) = match locate_code(bytes) {
        Ok(region) => region,
        Err(e) => {
            return Err(e);
        },
    };
    let words = read_words(bytes, offset, len);
    extract_words(words.as_slice())
}

} // verus!
