//! Rotation of the letters of the basic Latin alphabet.

use vstd::prelude::*;
use vstd::string::*;
use vstd::utf8::*;

verus! {

/// The largest rotation for which a letter's place plus the rotation still
/// fits a byte.
pub const MAX_ROTATION: u8 = 230;

/// `byte` rotated by `n` places within its alphabet, if it is a letter.
pub open spec fn rotated(byte: u8, n: u8) -> u8 {
    if 0x41 <= byte <= 0x5a {
        ((byte - 0x41 + n) % 26 + 0x41) as u8
    } else if 0x61 <= byte <= 0x7a {
        ((byte - 0x61 + n) % 26 + 0x61) as u8
    } else {
        byte
    }
}

/// Rotates every ASCII letter of `bytes` by `n` places within its own case
/// and leaves every other byte as it is.
pub fn alphabetic_rot(bytes: &mut [u8], n: u8)
    requires
        n <= MAX_ROTATION,
    ensures
        final(bytes)@.len() == old(bytes)@.len(),
        forall|i: int|
            0 <= i < old(bytes)@.len() ==> #[trigger] final(bytes)@[i] == rotated(
                old(bytes)@[i],
                n,
            ),
{
    let mut i: usize = 0;
    while i < bytes.len()
        invariant
            n <= MAX_ROTATION,
            i <= bytes@.len(),
            bytes@.len() == old(bytes)@.len(),
            forall|j: int| 0 <= j < i ==> #[trigger] bytes@[j] == rotated(old(bytes)@[j], n),
            forall|j: int| i <= j < bytes@.len() ==> #[trigger] bytes@[j] == old(bytes)@[j],
        decreases bytes@.len() - i,
    {
        let byte: u8 = bytes[i];
        if 0x41 <= byte && byte <= 0x5a {
            bytes[i] = (byte - 0x41 + n) % 26 + 0x41;
        } else if 0x61 <= byte && byte <= 0x7a {
            bytes[i] = (byte - 0x61 + n) % 26 + 0x61;
        }
        i += 1;
    }
}

/// Rotating by `n` and then by `26 - n` gives every byte back.
pub proof fn lemma_rotation_undone(byte: u8, n: u8)
    requires
        n <= 26,
    ensures
        rotated(rotated(byte, n), (26 - n) as u8) == byte,
{
}

/// `bytes` with every byte rotated by `n` places.
pub open spec fn rotated_bytes(bytes: Seq<u8>, n: u8) -> Seq<u8> {
    Seq::new(bytes.len(), |i: int| rotated(bytes[i], n))
}

/// Rotating the letters of well-formed UTF-8 leaves it well-formed: a letter
/// turns into a letter of one byte, and no other byte changes.
pub proof fn lemma_rotation_keeps_utf8(bytes: Seq<u8>, n: u8)
    requires
        n <= MAX_ROTATION,
        valid_utf8(bytes),
    ensures
        valid_utf8(rotated_bytes(bytes, n)),
    decreases bytes.len(),
{
    let after = rotated_bytes(bytes, n);
    if bytes.len() != 0 {
        let width = length_of_first_scalar(bytes);
        assert(1 <= width <= 4 && width <= bytes.len());
        assert(forall|i: int| 0 <= i < bytes.len() && bytes[i] >= 0x80 ==> after[i] == bytes[i]);
        assert(after[0] < 0x80 <==> bytes[0] < 0x80);
        assert(valid_first_scalar(after) && length_of_first_scalar(after) == width);
        assert(pop_first_scalar(after) =~= rotated_bytes(pop_first_scalar(bytes), n));
        lemma_rotation_keeps_utf8(pop_first_scalar(bytes), n);
    }
}

/// Makes a string of bytes that are UTF-8.
///
/// Calls `String::from_utf8`, which checks that the bytes are valid UTF-8
/// and then takes them as the string's own, and fails on any other bytes.
#[verifier::external_body]
fn string_from_utf8(bytes: Vec<u8>) -> (r: Option<String>)
    ensures
        r is Some <==> valid_utf8(bytes@),
        r matches Some(s) ==> s@ == decode_utf8(bytes@),
{
    String::from_utf8(bytes).ok()
}

/// Rotates every ASCII letter of `message` by `n` places within its own case
/// and leaves everything else as it is.
pub fn string_rot(message: &mut String, n: u8)
    requires
        n <= MAX_ROTATION,
    ensures
        encode_utf8(final(message)@) == rotated_bytes(encode_utf8(old(message)@), n),
{
    let mut bytes = message.as_str().as_bytes_vec();
    let ghost before = bytes@;
    alphabetic_rot(bytes.as_mut_slice(), n);
    proof {
        encode_utf8_valid_utf8(message@);
        assert(bytes@ =~= rotated_bytes(before, n));
        lemma_rotation_keeps_utf8(before, n);
        decode_utf8_encode_utf8(bytes@);
    }
    match string_from_utf8(bytes) {
        Some(rotated) => {
            *message = rotated;
        },
        None => {},
    }
}

} // verus!
