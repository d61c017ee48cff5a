use sneaky::error::StegoError;
use sneaky::lsb::{
    decode, decode_permuted, encode, encode_permuted, extract_bit_planes, keyed_permutation,
    payload_capacity, raw_decode, raw_encode,
};
use sneaky::passphrase::gen_seed;
use sneaky::{lsb_decode, lsb_encode, lsb_raw_decode, lsb_raw_encode};

fn pattern(len: usize, seed: u32) -> Vec<u8> {
    let mut state = seed;
    let mut out = Vec::with_capacity(len);
    for _ in 0..len {
        state = state.wrapping_mul(1_664_525).wrapping_add(1_013_904_223);
        out.push((state >> 24) as u8);
    }
    out
}

#[test]
fn hi_in_a_thousand_zero_bytes() {
    let mut carrier = vec![0u8; 1000];
    assert_eq!(encode(b"hi", &mut carrier, 1, None), Ok(()));
    for i in 0..32 {
        assert_eq!(carrier[i], if i == 1 { 1 } else { 0 }, "length bit {i}");
    }
    let bits = [0, 1, 1, 0, 1, 0, 0, 0, 0, 1, 1, 0, 1, 0, 0, 1];
    assert_eq!(&carrier[32..48], &bits[..]);
    assert_eq!(&carrier[48..], &vec![0u8; 952][..]);
    assert_eq!(decode(&carrier, 1, None), Ok(b"hi".to_vec()));
}

#[test]
fn header_keeps_the_upper_seven_bits() {
    let mut carrier = vec![0xFFu8; 100];
    assert_eq!(raw_encode(b"hi\0", &mut carrier, 3), Ok(()));
    for i in 0..32 {
        assert_eq!(carrier[i], if i == 1 { 0xFF } else { 0xFE }, "length bit {i}");
    }
}

#[test]
fn windows_of_three_bits() {
    let mut carrier = vec![0xFFu8; 100];
    assert_eq!(raw_encode(b"hi\0", &mut carrier, 3), Ok(()));
    assert_eq!(&carrier[32..38], &[251, 250, 248, 254, 252, 252][..]);
    assert_eq!(&carrier[38..], &vec![0xFFu8; 62][..]);
    assert_eq!(raw_decode(&carrier, 3), Ok(b"hi".to_vec()));
}

#[test]
fn windows_of_five_bits() {
    let mut carrier = vec![0xA5u8; 48];
    assert_eq!(lsb_raw_encode(b"hi\0", &mut carrier, 5), Ok(()));
    assert_eq!(
        &carrier[32..],
        &[173, 161, 180, 176, 165, 165, 165, 165, 165, 165, 165, 165, 165, 165, 165, 165][..]
    );
    assert_eq!(lsb_raw_decode(&carrier, 5), Ok(b"hi".to_vec()));
}

#[test]
fn the_reserved_byte_lends_bits_to_the_last_window() {
    let mut zero = vec![0u8; 100];
    let mut ones = vec![0u8; 100];
    assert_eq!(raw_encode(&[0xAB, 0x00], &mut zero, 3), Ok(()));
    assert_eq!(raw_encode(&[0xAB, 0xFF], &mut ones, 3), Ok(()));
    // 10101011 in threes: 101 010 11x.
    assert_eq!(&zero[32..36], &[5, 2, 6, 0][..]);
    assert_eq!(&ones[32..36], &[5, 2, 7, 0][..]);
    assert_eq!(raw_decode(&zero, 3), Ok(vec![0xAB]));
    assert_eq!(raw_decode(&ones, 3), Ok(vec![0xAB]));
}

#[test]
fn a_payload_without_the_reserved_byte_hides_nothing() {
    for n_bits in 1..=8usize {
        let before = pattern(300, 41);
        let mut empty = before.clone();
        let mut reserved = before.clone();
        let mut windowed = before.clone();
        assert_eq!(raw_encode(&[], &mut empty, n_bits), Ok(()));
        assert_eq!(raw_encode(&[0x77], &mut reserved, n_bits), Ok(()));
        assert_eq!(lsb_raw_encode(&[], &mut windowed, n_bits), Ok(()));
        assert_eq!(empty, reserved);
        assert_eq!(empty, windowed);
        assert_eq!(&empty[32..], &before[32..]);
        assert_eq!(raw_decode(&empty, n_bits), Ok(vec![]));
    }
    let mut short = vec![0u8; 31];
    assert_eq!(raw_encode(&[], &mut short, 8), Err(StegoError::CapacityExceeded));
    assert_eq!(raw_encode(&[], &mut short, 0), Err(StegoError::InvalidBitWidth));
}

#[test]
fn round_trip_at_every_width() {
    for n_bits in 1..=8u8 {
        for len in [0usize, 1, 2, 7, 64, 100] {
            let message = pattern(len, 7 + len as u32);
            let mut carrier = pattern(2000, n_bits as u32);
            assert_eq!(encode(&message, &mut carrier, n_bits, None), Ok(()), "{n_bits} {len}");
            assert_eq!(decode(&carrier, n_bits, None), Ok(message.clone()), "{n_bits} {len}");
            assert_eq!(lsb_decode(&carrier, n_bits, None), Ok(message), "{n_bits} {len}");
        }
    }
}

#[test]
fn round_trip_of_the_windowed_path_at_every_width() {
    for n_bits in 1..=8usize {
        let mut payload = pattern(90, 3);
        payload.push(0x5A);
        let mut carrier = pattern(1500, 11);
        assert_eq!(lsb_raw_encode(&payload, &mut carrier, n_bits), Ok(()));
        assert_eq!(lsb_raw_decode(&carrier, n_bits), Ok(payload[..90].to_vec()));
        assert_eq!(raw_decode(&carrier, n_bits), Ok(payload[..90].to_vec()));
    }
}

#[test]
fn embedding_changes_low_bits_only() {
    for n_bits in 1..=7usize {
        let before = pattern(600, 99);
        let mut carrier = before.clone();
        let mut payload = pattern(40, 5);
        payload.push(0);
        assert_eq!(raw_encode(&payload, &mut carrier, n_bits), Ok(()));
        let chunks = (40 * 8 + n_bits - 1) / n_bits;
        for i in 0..600 {
            let keep: u8 = if i < 32 {
                0xFE
            } else if i < 32 + chunks {
                0xFFu8 << n_bits
            } else {
                0xFF
            };
            assert_eq!(carrier[i] & keep, before[i] & keep, "{n_bits} {i}");
        }
    }
}

#[test]
fn byte_aligned_path_agrees_with_windowed_path() {
    for len in [0usize, 1, 5, 200, 468] {
        let mut payload = pattern(len, 21);
        payload.push(0xEE);
        let mut fast = pattern(500, 4);
        let mut windowed = fast.clone();
        assert_eq!(raw_encode(&payload, &mut fast, 8), Ok(()));
        assert_eq!(lsb_raw_encode(&payload, &mut windowed, 8), Ok(()));
        assert_eq!(fast, windowed);
        assert_eq!(&fast[32..32 + len], &payload[..len]);
        assert_eq!(raw_decode(&fast, 8), lsb_raw_decode(&fast, 8));
        assert_eq!(raw_decode(&fast, 8), Ok(payload[..len].to_vec()));
    }
}

#[test]
fn capacity_of_a_thousand_bytes() {
    let expected = [93, 218, 468, 468, 968, 968, 968, 968];
    for n_bits in 1..=8u8 {
        assert_eq!(payload_capacity(1000, n_bits), Some(expected[n_bits as usize - 1]));
    }
    assert_eq!(payload_capacity(1000, 0), None);
    assert_eq!(payload_capacity(1000, 9), None);
    assert_eq!(payload_capacity(255, 1), None);
    assert_eq!(payload_capacity(256, 1), Some(0));
    assert_eq!(payload_capacity(31, 8), None);
    assert_eq!(payload_capacity(32, 8), Some(0));
    assert_eq!(payload_capacity(0, 4), None);
}

#[test]
fn embedding_in_a_given_order() {
    // The reverse order: the header lands in the last 32 bytes.
    let perm: Vec<usize> = (0..100).rev().collect();
    let mut carrier = vec![0u8; 100];
    assert_eq!(encode_permuted(b"hi", &mut carrier, 4, &perm), Ok(()));
    let mut expected = vec![0u8; 100];
    expected[98] = 1;
    // 0x68 0x69 in nibbles, from byte 67 downwards.
    expected[67] = 6;
    expected[66] = 8;
    expected[65] = 6;
    expected[64] = 9;
    assert_eq!(carrier, expected);
    assert_eq!(decode_permuted(&carrier, 4, &perm), Ok(b"hi".to_vec()));
    assert_ne!(decode(&carrier, 4, None), Ok(b"hi".to_vec()));
    // The identity is the unkeyed order.
    let identity: Vec<usize> = (0..100).collect();
    let mut keyed = vec![0x33u8; 100];
    let mut plain = vec![0x33u8; 100];
    assert_eq!(encode_permuted(b"hi", &mut keyed, 4, &identity), Ok(()));
    assert_eq!(encode(b"hi", &mut plain, 4, None), Ok(()));
    assert_eq!(keyed, plain);
    assert_eq!(
        encode_permuted(&[0u8; 19], &mut keyed, 4, &identity),
        Err(StegoError::CapacityExceeded)
    );
    assert_eq!(keyed, plain);
}

#[test]
fn capacity_boundary() {
    // 1000 / (8 / n) - 32
    for (n_bits, capacity) in [(1u8, 93usize), (2, 218), (4, 468), (8, 968)] {
        let before = pattern(1000, 17);
        let mut carrier = before.clone();
        let over = pattern(capacity + 1, 1);
        assert_eq!(encode(&over, &mut carrier, n_bits, None), Err(StegoError::CapacityExceeded));
        assert_eq!(carrier, before);
        assert_eq!(
            encode(&over, &mut carrier, n_bits, Some(5)),
            Err(StegoError::CapacityExceeded)
        );
        assert_eq!(carrier, before);
        assert_eq!(
            lsb_encode(&over, &mut carrier, n_bits, None),
            Err(StegoError::CapacityExceeded)
        );
        assert_eq!(carrier, before);
        let exact = pattern(capacity, 2);
        assert_eq!(encode(&exact, &mut carrier, n_bits, None), Ok(()));
        assert_eq!(decode(&carrier, n_bits, None), Ok(exact));
    }
}

#[test]
fn a_payload_that_the_carrier_bytes_cannot_take_is_refused() {
    // 1000 / (8 / 3) - 32 is 468, but 468 bytes are 1248 windows of three bits.
    let before = pattern(1000, 17);
    let mut carrier = before.clone();
    assert_eq!(
        encode(&pattern(468, 1), &mut carrier, 3, None),
        Err(StegoError::CapacityExceeded)
    );
    assert_eq!(carrier, before);
    // 968 windows of three bits hold 363 bytes.
    assert_eq!(
        encode(&pattern(364, 1), &mut carrier, 3, None),
        Err(StegoError::CapacityExceeded)
    );
    assert_eq!(carrier, before);
    let message = pattern(363, 1);
    assert_eq!(encode(&message, &mut carrier, 3, None), Ok(()));
    assert_eq!(decode(&carrier, 3, None), Ok(message));
}

#[test]
fn a_carrier_without_room_for_the_header_takes_nothing() {
    let mut carrier = vec![0u8; 31];
    assert_eq!(encode(b"", &mut carrier, 8, None), Err(StegoError::CapacityExceeded));
    assert_eq!(decode(&carrier, 8, None), Err(StegoError::MalformedHeader));
    assert_eq!(lsb_raw_decode(&carrier, 3), Err(StegoError::MalformedHeader));
    let mut carrier = vec![0xFFu8; 32];
    assert_eq!(encode(b"", &mut carrier, 8, None), Ok(()));
    assert_eq!(carrier, vec![0xFEu8; 32]);
    assert_eq!(decode(&carrier, 8, None), Ok(vec![]));
    assert_eq!(lsb_decode(&carrier, 1, None), Ok(vec![]));
}

#[test]
fn bit_width_outside_one_to_eight_is_refused() {
    let before = vec![3u8; 200];
    let mut carrier = before.clone();
    for n_bits in [0u8, 9, 16, 255] {
        assert_eq!(encode(b"x", &mut carrier, n_bits, None), Err(StegoError::InvalidBitWidth));
        assert_eq!(encode(b"x", &mut carrier, n_bits, Some(1)), Err(StegoError::InvalidBitWidth));
        assert_eq!(lsb_encode(b"x", &mut carrier, n_bits, None), Err(StegoError::InvalidBitWidth));
        assert_eq!(
            raw_encode(b"x\0", &mut carrier, n_bits as usize),
            Err(StegoError::InvalidBitWidth)
        );
        assert_eq!(carrier, before);
        assert_eq!(decode(&carrier, n_bits, None), Err(StegoError::InvalidBitWidth));
        assert_eq!(decode(&carrier, n_bits, Some(1)), Err(StegoError::InvalidBitWidth));
        assert_eq!(lsb_decode(&carrier, n_bits, None), Err(StegoError::InvalidBitWidth));
        assert_eq!(raw_decode(&carrier, n_bits as usize), Err(StegoError::InvalidBitWidth));
        assert_eq!(lsb_raw_decode(&carrier, n_bits as usize), Err(StegoError::InvalidBitWidth));
    }
    // An empty carrier with a bad width: the width is reported.
    assert_eq!(decode(&[], 0, None), Err(StegoError::InvalidBitWidth));
}

#[test]
fn a_length_beyond_the_carrier_is_malformed() {
    // All length bits set.
    let carrier = vec![0xFFu8; 1000];
    for n_bits in 1..=8u8 {
        assert_eq!(decode(&carrier, n_bits, None), Err(StegoError::MalformedHeader));
        assert_eq!(lsb_decode(&carrier, n_bits, None), Err(StegoError::MalformedHeader));
    }
    // Length 4 with room for 3 at eight bits, and for 4.
    let mut carrier = vec![0u8; 35];
    carrier[2] = 1;
    assert_eq!(decode(&carrier, 8, None), Err(StegoError::MalformedHeader));
    carrier.push(9);
    assert_eq!(decode(&carrier, 8, None), Ok(vec![0, 0, 0, 9]));
    // At three bits the same length takes eleven carrier bytes.
    let mut carrier = vec![0u8; 42];
    carrier[2] = 1;
    assert_eq!(decode(&carrier, 3, None), Err(StegoError::MalformedHeader));
    carrier.push(0);
    assert_eq!(decode(&carrier, 3, None), Ok(vec![0, 0, 0, 0]));
}

#[test]
fn an_empty_message_reads_back_empty() {
    for n_bits in 1..=8u8 {
        let mut carrier = pattern(300, 8);
        assert_eq!(encode(b"", &mut carrier, n_bits, None), Ok(()));
        assert_eq!(decode(&carrier, n_bits, None), Ok(vec![]));
        assert_eq!(lsb_decode(&carrier, n_bits, None), Ok(vec![]));
    }
}

#[test]
fn key_round_trip() {
    for n_bits in 1..=8u8 {
        for key in [0u64, 1, 0xDEAD_BEEF, u64::MAX] {
            let message = pattern(50, key as u32);
            let mut carrier = pattern(1200, 31);
            assert_eq!(encode(&message, &mut carrier, n_bits, Some(key)), Ok(()));
            assert_eq!(decode(&carrier, n_bits, Some(key)), Ok(message.clone()));
            assert_eq!(lsb_decode(&carrier, n_bits, Some(key)), Ok(message.clone()));
            let mut other = pattern(1200, 31);
            assert_eq!(lsb_encode(&message, &mut other, n_bits, Some(key)), Ok(()));
            assert_eq!(other, carrier);
        }
    }
}

#[test]
fn a_key_moves_the_bits() {
    let message = pattern(60, 2);
    let before = vec![0u8; 2000];
    let mut plain = before.clone();
    let mut first = before.clone();
    let mut second = before.clone();
    assert_eq!(encode(&message, &mut plain, 1, None), Ok(()));
    assert_eq!(encode(&message, &mut first, 1, Some(1)), Ok(()));
    assert_eq!(encode(&message, &mut second, 1, Some(2)), Ok(()));
    assert_ne!(plain, first);
    assert_ne!(plain, second);
    assert_ne!(first, second);
    // The same bits, elsewhere.
    let ones = |carrier: &Vec<u8>| carrier.iter().filter(|byte| **byte == 1).count();
    assert_eq!(ones(&plain), ones(&first));
    assert_eq!(ones(&plain), ones(&second));
    assert_eq!(&plain[512..], &vec![0u8; 2000 - 512][..]);
    assert_ne!(&first[512..], &vec![0u8; 2000 - 512][..]);
    // The wrong key, or none, does not find the message.
    assert_ne!(decode(&first, 1, Some(2)), Ok(message.clone()));
    assert_ne!(decode(&first, 1, None), Ok(message.clone()));
    assert_eq!(decode(&first, 1, Some(1)), Ok(message));
}

#[test]
fn the_order_of_a_key_is_a_permutation() {
    for (key, len) in [(0u64, 0usize), (1, 1), (2, 100), (u64::MAX, 1000)] {
        let perm = keyed_permutation(key, len);
        assert_eq!(perm, keyed_permutation(key, len));
        let mut sorted = perm.clone();
        sorted.sort();
        assert_eq!(sorted, (0..len).collect::<Vec<usize>>());
    }
    assert_ne!(keyed_permutation(7, 100), (0..100).collect::<Vec<usize>>());
    assert_ne!(keyed_permutation(7, 100), keyed_permutation(8, 100));
    // Embedding under a key is embedding in the key's order.
    let mut keyed = vec![0x5Au8; 400];
    let mut ordered = keyed.clone();
    assert_eq!(encode(b"order", &mut keyed, 2, Some(7)), Ok(()));
    assert_eq!(encode_permuted(b"order", &mut ordered, 2, &keyed_permutation(7, 400)), Ok(()));
    assert_eq!(keyed, ordered);
    assert_eq!(decode_permuted(&keyed, 2, &keyed_permutation(7, 400)), Ok(b"order".to_vec()));
}

#[test]
fn a_keyed_embedding_touches_low_bits_only() {
    let before = pattern(900, 77);
    let mut carrier = before.clone();
    assert_eq!(encode(&pattern(80, 3), &mut carrier, 2, Some(42)), Ok(()));
    assert_eq!(carrier.len(), 900);
    for i in 0..900 {
        assert_eq!(carrier[i] & 0xFC, before[i] & 0xFC, "{i}");
    }
}

#[test]
fn bit_planes_of_two_pixels() {
    // Red 0b1000_0001, green 0, blue 0xFF; then red 0, green 0b0000_0010, blue 0.
    let planes = extract_bit_planes(&[0x81, 0x00, 0xFF, 0x00, 0x02, 0x00, 0x33]);
    assert_eq!(planes.len(), 24);
    for (q, plane) in planes.iter().enumerate() {
        let first = if q == 0 || q == 7 || q >= 16 { 0 } else { 255 };
        let second = if q == 9 { 0 } else { 255 };
        assert_eq!(plane, &vec![first, second], "plane {q}");
    }
    assert_eq!(extract_bit_planes(&[1, 2]), vec![Vec::<u8>::new(); 24]);
}

#[test]
fn seed_of_a_passphrase() {
    assert_eq!(gen_seed(b""), 0);
    assert_eq!(gen_seed(b"a"), 0xe045_6665_d3e6_0275);
    assert_eq!(gen_seed(b"password"), 0x2957_2410_74e3_2815);
    assert_ne!(gen_seed(b"ab"), gen_seed(b"ba"));
}
