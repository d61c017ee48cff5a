//! The steps by which the loops of the pixel carrier are proved.

use vstd::prelude::*;
use vstd::arithmetic::div_mod::lemma_fundamental_div_mod_converse;
use crate::bits::{bit, bits_of, byte_bits, bytes_of, lemma_bit_of_pack, lemma_byte_by_bits, pack};
use crate::lsb::{HEADER_LEN, carrier_bits, chunks_needed, identity, is_permutation, merged};

verus! {

/// Bit `i` of a merged byte: a chunk bit in the low places, the carrier's own
/// bit above them.
pub proof fn lemma_merged_bit(c: u8, chunk: Seq<bool>, i: int)
    requires
        chunk.len() <= 8,
        0 <= i < 8,
    ensures
        bit(merged(c, chunk), i) == if i < chunk.len() {
            chunk[chunk.len() - 1 - i]
        } else {
            bit(c, i)
        },
{
    lemma_bit_of_pack(byte_bits(c).subrange(0, 8 - chunk.len()) + chunk, i);
}

/// Setting the lowest bit of a byte to `b` leaves its other bits alone.
pub(crate) proof fn lemma_low_bit_set(c: u8, b: u8, j: u8)
    by (bit_vector)
    requires
        b <= 1,
        j < 8,
    ensures
        ((((c & 0xFE) | b) >> j) & 1 == 1) == (if j == 0 {
            b == 1
        } else {
            (c >> j) & 1 == 1
        }),
{
}

/// A single bit of a length is zero or one.
pub(crate) proof fn lemma_shifted_bit(len: u32, i: u32)
    by (bit_vector)
    requires
        i < 32,
    ensures
        (len >> i) & 1 <= 1,
{
}

/// The lowest bit of a carrier byte, moved to place `i` of the length.
pub(crate) proof fn lemma_header_step(c: u8, i: u32)
    by (bit_vector)
    requires
        i < 32,
    ensures
        ((c & 1) as u32) << i == (if (c >> 0u8) & 1 == 1 {
            1u32 << i
        } else {
            0u32
        }),
{
}

/// What the windowed path computes for one carrier byte `c`: the `n` bits at
/// offset `off` of the two payload bytes `hi` and `lo`, in place of the low
/// bits of `c`.
pub open spec fn window_byte(c: u8, hi: u8, lo: u8, n: u32, off: u32) -> u32 {
    ((c as u32) & (0xFFu32 << n)) | (((((hi as u32) << 8u32) | (lo as u32)) >> ((16 - n
        - off) as u32)) & (0xFFu32 >> ((8 - n) as u32)))
}

/// Bit `j` of the byte that the windowed path computes: a bit of `hi` or `lo`
/// in the low `n` places, the bit of `c` above them.
proof fn lemma_window_bit(hi: u8, lo: u8, c: u8, n: u32, off: u32, j: u32)
    by (bit_vector)
    requires
        1 <= n <= 8,
        off < 8,
        j < 8,
    ensures
        window_byte(c, hi, lo, n, off) < 256,
        (((window_byte(c, hi, lo, n, off) as u8) >> (j as u8)) & 1 == 1) == (if j < n {
            if off + n - 1 - j < 8 {
                (hi >> ((7 - (off + n - 1 - j)) as u8)) & 1 == 1
            } else {
                (lo >> ((15 - (off + n - 1 - j)) as u8)) & 1 == 1
            }
        } else {
            (c >> (j as u8)) & 1 == 1
        }),
{
}

/// The carrier byte that the windowed path computes is the merged byte.
pub(crate) proof fn lemma_window_merged(payload: Seq<u8>, c: u8, n: int, start: int)
    requires
        1 <= n <= 8,
        0 <= start < 8 * (payload.len() - 1),
    ensures
        window_byte(c, payload[start / 8], payload[start / 8 + 1], n as u32, (start % 8) as u32)
            < 256,
        window_byte(c, payload[start / 8], payload[start / 8 + 1], n as u32, (start % 8) as u32)
            as u8 == merged(c, bits_of(payload).subrange(start, start + n)),
{
    let idx = start / 8;
    let off = start % 8;
    let hi = payload[idx];
    let lo = payload[idx + 1];
    let e = window_byte(c, hi, lo, n as u32, off as u32) as u8;
    let chunk = bits_of(payload).subrange(start, start + n);
    assert forall|j: int| 0 <= j < 8 implies bit(e, j) == bit(merged(c, chunk), j) by {
        lemma_window_bit(hi, lo, c, n as u32, off as u32, j as u32);
        lemma_merged_bit(c, chunk, j);
        if j < n {
            let t = start + n - 1 - j;
            assert(chunk[n - 1 - j] == bits_of(payload)[t]);
            assert(t == 8 * idx + (off + n - 1 - j));
            if off + n - 1 - j < 8 {
                assert(t / 8 == idx && t % 8 == off + n - 1 - j);
            } else {
                assert(t / 8 == idx + 1 && t % 8 == off + n - 1 - j - 8);
            }
        }
    }
    lemma_window_bit(hi, lo, c, n as u32, off as u32, 0);
    lemma_byte_by_bits(e, merged(c, chunk));
}

/// A chunk that still holds payload bits lies within the chunks needed.
pub(crate) proof fn lemma_chunk_in_range(k: int, n: int, len: int)
    by (nonlinear_arith)
    requires
        1 <= n <= 8,
        0 <= k,
        k * n < 8 * len,
    ensures
        k < chunks_needed(len, n),
        (k + 1) * n == k * n + n,
{
}

/// Chunks from the first one past the payload's bits hold none of them.
pub(crate) proof fn lemma_chunk_past_end(k: int, j: int, n: int, len: int)
    by (nonlinear_arith)
    requires
        1 <= n <= 8,
        0 <= k <= j,
        k * n >= 8 * len,
    ensures
        j * n >= 8 * len,
{
}

/// Bit `m` of chunk `k` of the carrier's bit stream is a bit of carrier byte
/// `HEADER_LEN + k`, the first bit of the chunk being the highest of its
/// `n` low bits.
pub(crate) proof fn lemma_carrier_bit(carrier: Seq<u8>, n: int, k: int, m: int)
    requires
        1 <= n <= 8,
        0 <= k,
        HEADER_LEN + k < carrier.len(),
        0 <= m < n,
    ensures
        0 <= k * n + m < carrier_bits(carrier, n).len(),
        carrier_bits(carrier, n)[k * n + m] == bit(carrier[HEADER_LEN + k], n - 1 - m),
{
    let total = carrier.len() - HEADER_LEN;
    assert(0 <= k * n && k * n + n <= total * n) by (nonlinear_arith)
        requires
            0 <= k < total,
            1 <= n,
    ;
    lemma_fundamental_div_mod_converse(k * n + m, n, k, m);
}

/// The bytes that the announced length asks for are within the carrier's bit
/// stream.
pub(crate) proof fn lemma_length_within(carrier_len: int, n: int, len: int)
    by (nonlinear_arith)
    requires
        1 <= n <= 8,
        0 <= len,
        HEADER_LEN <= carrier_len,
        chunks_needed(len, n) <= carrier_len - HEADER_LEN,
    ensures
        8 * len <= (carrier_len - HEADER_LEN) * n,
        len <= ((carrier_len - HEADER_LEN) * n) / 8,
{
    let c = chunks_needed(len, n);
    assert(c * n >= 8 * len) by {
        assert((8 * len + n - 1) == n * c + (8 * len + n - 1) % n);
        assert(0 <= (8 * len + n - 1) % n < n);
    }
    assert(c * n <= (carrier_len - HEADER_LEN) * n);
}

/// What one step of the windowed extraction computes: `take` more bits, the
/// highest of the `n` low bits of `c`, shifted into `byte`.
pub open spec fn accumulated(byte: u32, c: u8, n: u32, take: u32) -> u32 {
    (byte << take) | (((c as u32) >> ((n - take) as u32)) & (0xFFu32 >> ((8 - take) as u32)))
}

/// The low `keep` bits of `c`.
pub open spec fn low_bits(c: u8, keep: u32) -> u32 {
    (c as u32) & (0xFFu32 >> ((8 - keep) as u32))
}

/// Bit `j` of what one step of the extraction computes: one of the bits
/// taken from `c` in the low places, a bit held before above them.
proof fn lemma_accumulated_bit(byte: u32, have: u32, c: u8, n: u32, take: u32, j: u32)
    by (bit_vector)
    requires
        have < 8,
        1 <= n <= 8,
        1 <= take <= n,
        take <= 8 - have,
        byte < (1u32 << have),
        j < 8,
    ensures
        accumulated(byte, c, n, take) < (1u32 << ((have + take) as u32)),
        accumulated(byte, c, n, take) < 256,
        (((accumulated(byte, c, n, take) as u8) >> (j as u8)) & 1 == 1) == (if j < take {
            (c >> ((n - take + j) as u8)) & 1 == 1
        } else if j < have + take {
            ((byte as u8) >> ((j - take) as u8)) & 1 == 1
        } else {
            false
        }),
{
}

/// Bit `j` of the low `keep` bits of `c`.
proof fn lemma_low_bits_bit(c: u8, keep: u32, j: u32)
    by (bit_vector)
    requires
        keep < 8,
        j < 8,
    ensures
        low_bits(c, keep) < (1u32 << keep),
        low_bits(c, keep) < 256,
        (((low_bits(c, keep) as u8) >> (j as u8)) & 1 == 1) == (j < keep && (c >> (j as u8)) & 1
            == 1),
{
}

/// The part of a byte that extraction has gathered: its low `have` bits are
/// the last `have` bits before position `t` of the stream, and it has no
/// other bits.
pub open spec fn gathered(byte: u32, have: int, bits: Seq<bool>, t: int) -> bool {
    &&& byte < (1u32 << (have as u32))
    &&& byte < 256
    &&& forall|j: int|
        0 <= j < 8 ==> #[trigger] bit(byte as u8, j) == (j < have && bits[t - 1 - j])
}

/// A zero byte with no bits held is a gathered part at any position.
pub(crate) proof fn lemma_nothing_gathered(bits: Seq<bool>, t: int)
    ensures
        gathered(0, 0, bits, t),
{
    assert(0u32 < (1u32 << 0u32)) by (bit_vector);
    assert forall|j: int| 0 <= j < 8 implies bit(0u8, j) == false by {
        let k = j as u8;
        assert(k < 8 ==> (0u8 >> k) & 1 == 0) by (bit_vector);
    }
}

/// Taking the first `take` bits of chunk `k` extends what has been gathered.
pub(crate) proof fn lemma_gather_step(
    carrier: Seq<u8>,
    n: int,
    k: int,
    byte: u32,
    have: int,
    take: int,
)
    requires
        1 <= n <= 8,
        0 <= k,
        HEADER_LEN + k < carrier.len(),
        0 <= have < 8,
        1 <= take <= n,
        take <= 8 - have,
        gathered(byte, have, carrier_bits(carrier, n), k * n),
    ensures
        gathered(
            accumulated(byte, carrier[HEADER_LEN + k], n as u32, take as u32),
            have + take,
            carrier_bits(carrier, n),
            k * n + take,
        ),
{
    let c = carrier[HEADER_LEN + k];
    let bits = carrier_bits(carrier, n);
    let next = accumulated(byte, c, n as u32, take as u32);
    lemma_accumulated_bit(byte, have as u32, c, n as u32, take as u32, 0);
    assert forall|j: int| 0 <= j < 8 implies #[trigger] bit(next as u8, j) == (j < have + take
        && bits[k * n + take - 1 - j]) by {
        lemma_accumulated_bit(byte, have as u32, c, n as u32, take as u32, j as u32);
        if j < take {
            lemma_carrier_bit(carrier, n, k, take - 1 - j);
        } else if j < have + take {
            assert(bit(byte as u8, j - take) == bits[k * n - 1 - (j - take)]);
        }
    }
}

/// The bits of chunk `k` that were not taken start the next byte.
pub(crate) proof fn lemma_gather_rest(carrier: Seq<u8>, n: int, k: int, keep: int)
    requires
        1 <= n <= 8,
        0 <= k,
        HEADER_LEN + k < carrier.len(),
        0 <= keep < n,
    ensures
        gathered(
            low_bits(carrier[HEADER_LEN + k], keep as u32),
            keep,
            carrier_bits(carrier, n),
            k * n + n,
        ),
{
    let c = carrier[HEADER_LEN + k];
    let bits = carrier_bits(carrier, n);
    let rest = low_bits(c, keep as u32);
    lemma_low_bits_bit(c, keep as u32, 0);
    assert forall|j: int| 0 <= j < 8 implies #[trigger] bit(rest as u8, j) == (j < keep && bits[k
        * n + n - 1 - j]) by {
        lemma_low_bits_bit(c, keep as u32, j as u32);
        if j < keep {
            lemma_carrier_bit(carrier, n, k, n - 1 - j);
        }
    }
}

/// Eight gathered bits are the next byte of the carrier's bit stream.
pub(crate) proof fn lemma_gather_full(bits: Seq<bool>, byte: u32, b: int)
    requires
        0 <= b,
        8 * b + 8 <= bits.len(),
        gathered(byte, 8, bits, 8 * b + 8),
    ensures
        byte as u8 == bytes_of(bits)[b],
{
    let s = bits.subrange(8 * b, 8 * b + 8);
    assert forall|j: int| 0 <= j < 8 implies #[trigger] bit(byte as u8, j) == bit(pack(s), j) by {
        lemma_bit_of_pack(s, j);
    }
    lemma_byte_by_bits(byte as u8, pack(s));
}

/// A sequence with the items of `identity(n)` is a permutation.
pub(crate) proof fn lemma_same_items_permutation(perm: Seq<usize>, n: nat)
    requires
        n <= usize::MAX,
        perm.to_multiset() == identity(n).to_multiset(),
    ensures
        perm.len() == n,
        is_permutation(perm),
{
    let id = identity(n);
    perm.to_multiset_ensures();
    id.to_multiset_ensures();
    assert forall|j: int| 0 <= j < perm.len() implies #[trigger] perm[j] < perm.len() by {
        assert(perm.contains(perm[j]));
        assert(perm.to_multiset().count(perm[j]) > 0);
        assert(id.to_multiset().count(perm[j]) > 0);
        assert(id.contains(perm[j]));
    }
    assert(id.no_duplicates());
    id.lemma_multiset_has_no_duplicates();
    perm.lemma_multiset_has_no_duplicates_conv();
}

} // verus!
