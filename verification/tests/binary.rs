use sneaky::binary::macho::{
    check_region, locate_text, parse_mach_segments, SectionLayout, SegmentLayout,
};
use sneaky::binary::{
    can_carry, extract_string, extract_words, frame, inject_string, inject_words, read_words,
    winnable_instruction, write_words, Binit, Biterator,
};
use sneaky::error::StegoError;

#[test]
fn biterator_populated() {
    let bytes = [0b01010101, 0b10101010];

    let mut biterator = Biterator::new(&bytes);
    assert_eq!(biterator.next(), Some(false));
    assert_eq!(biterator.next(), Some(true));
    assert_eq!(biterator.next(), Some(false));
    assert_eq!(biterator.next(), Some(true));
    assert_eq!(biterator.next(), Some(false));
    assert_eq!(biterator.next(), Some(true));
    assert_eq!(biterator.next(), Some(false));
    assert_eq!(biterator.next(), Some(true));

    assert_eq!(biterator.next(), Some(true));
    assert_eq!(biterator.next(), Some(false));
    assert_eq!(biterator.next(), Some(true));
    assert_eq!(biterator.next(), Some(false));
    assert_eq!(biterator.next(), Some(true));
    assert_eq!(biterator.next(), Some(false));
    assert_eq!(biterator.next(), Some(true));
    assert_eq!(biterator.next(), Some(false));

    assert_eq!(biterator.next(), None);
}

#[test]
fn pog() {
    let mut biterator = Biterator::new(b"pog");
    assert_eq!(biterator.next(), Some(false));
    assert_eq!(biterator.next(), Some(true));
    assert_eq!(biterator.next(), Some(true));
    assert_eq!(biterator.next(), Some(true));
    assert_eq!(biterator.next(), Some(false));
    assert_eq!(biterator.next(), Some(false));
    assert_eq!(biterator.next(), Some(false));
    assert_eq!(biterator.next(), Some(false));

    assert_eq!(biterator.next(), Some(false));
    assert_eq!(biterator.next(), Some(true));
    assert_eq!(biterator.next(), Some(true));
    assert_eq!(biterator.next(), Some(false));
    assert_eq!(biterator.next(), Some(true));
    assert_eq!(biterator.next(), Some(true));
    assert_eq!(biterator.next(), Some(true));
    assert_eq!(biterator.next(), Some(true));

    assert_eq!(biterator.next(), Some(false));
    assert_eq!(biterator.next(), Some(true));
    assert_eq!(biterator.next(), Some(true));
    assert_eq!(biterator.next(), Some(false));
    assert_eq!(biterator.next(), Some(false));
    assert_eq!(biterator.next(), Some(true));
    assert_eq!(biterator.next(), Some(true));
    assert_eq!(biterator.next(), Some(true));

    assert_eq!(biterator.next(), None);
    assert_eq!(biterator.next(), None);
    assert_eq!(biterator.next(), None);
    assert_eq!(biterator.next(), None);
    assert_eq!(biterator.next(), None);
    assert_eq!(biterator.next(), None);
    assert_eq!(biterator.next(), None);
    assert_eq!(biterator.next(), None);

    assert_eq!(biterator.next(), None);
}

#[test]
fn biterator_empty() {
    let mut biterator = Biterator::new(&[]);
    assert_eq!(biterator.next(), None);
    assert_eq!(biterator.next(), None);
}

#[test]
fn binit_packs_most_significant_bit_first() {
    let mut binit = Binit::default();
    assert_eq!(binit.complete(), Some(&[][..]));
    for bit in [true, false, true] {
        binit.add(bit);
    }
    assert_eq!(binit.complete(), Some(&[0b1010_0000][..]));
    for bit in [false, false, false, false, true, true] {
        binit.add(bit);
    }
    assert_eq!(binit.complete(), Some(&[0b1010_0001, 0b1000_0000][..]));
}

#[test]
fn binit_yields_length_once_four_whole_bytes_are_held() {
    let mut binit = Binit::default();
    let mut bits = Biterator::new(&[0x78, 0x56, 0x34, 0x12]);
    for _ in 0..31 {
        binit.add(bits.next().unwrap());
        assert_eq!(binit.len(), None);
    }
    binit.add(bits.next().unwrap());
    assert_eq!(binit.len(), Some(0x1234_5678));
    assert_eq!(binit.complete(), Some(&[][..]));
    assert_eq!(binit.len(), None);
    binit.add(true);
    assert_eq!(binit.complete(), Some(&[0x80][..]));
}

#[test]
fn binit_keeps_bytes_behind_the_length() {
    let mut binit = Binit::default();
    let mut bits = Biterator::new(&[2, 0, 0, 0, 0xAB, 0xCD]);
    while let Some(bit) = bits.next() {
        binit.add(bit);
    }
    assert_eq!(binit.len(), Some(2));
    assert_eq!(binit.complete(), Some(&[0xAB, 0xCD][..]));
}

// ADD X0, X1, X2
const ADD_1_2: u32 = 0x8b02_0020;
// ADD X0, X2, X1
const ADD_2_1: u32 = 0x8b01_0040;
// ADD X0, X3, X3
const ADD_3_3: u32 = 0x8b03_0060;
// NOP
const NOP: u32 = 0xd503_201f;

#[test]
fn winnable_instruction_matches_the_five_templates() {
    assert!(winnable_instruction(ADD_1_2));
    assert!(winnable_instruction(ADD_3_3));
    // ADDS W0, W1, W2
    assert!(winnable_instruction(0x2b02_0020));
    // ADC X0, X1, X2
    assert!(winnable_instruction(0x9a02_0020));
    // AND X0, X1, X2
    assert!(winnable_instruction(0x8a02_0020));
    // ORR X0, X1, X2
    assert!(winnable_instruction(0xaa02_0020));
    // EOR X0, X1, X2
    assert!(winnable_instruction(0xca02_0020));
    assert!(!winnable_instruction(NOP));
    // SUB X0, X1, X2
    assert!(!winnable_instruction(0xcb02_0020));
    // ADD X0, X1, X2, LSL #1
    assert!(!winnable_instruction(0x8b02_0420));
    // ADD X0, X1, X2, LSR #0
    assert!(!winnable_instruction(0x8b42_0020));
    assert!(!winnable_instruction(0));
}

#[test]
fn inject_words_orders_operands_by_bit() {
    // The stream of an empty payload is 32 zero bits.
    let mut words = vec![ADD_1_2; 32];
    assert_eq!(inject_words(&mut words, &[]), Ok(()));
    assert_eq!(words, vec![ADD_2_1; 32]);

    // Length 1 is 0x01 0x00 0x00 0x00, then 0xFF.
    let mut words = vec![ADD_1_2; 40];
    assert_eq!(inject_words(&mut words, &[0xFF]), Ok(()));
    for (k, word) in words.iter().enumerate() {
        let one = k == 7 || k >= 32;
        assert_eq!(*word, if one { ADD_1_2 } else { ADD_2_1 }, "word {k}");
    }
}

#[test]
fn inject_words_leaves_other_words_alone() {
    let mut words = Vec::new();
    for _ in 0..40 {
        words.push(NOP);
        words.push(ADD_3_3);
        words.push(ADD_2_1);
        words.push(0xcb02_0020);
    }
    let before = words.clone();
    assert_eq!(inject_words(&mut words, &[0xFF]), Ok(()));
    for k in 0..words.len() {
        if k % 4 != 2 {
            assert_eq!(words[k], before[k], "word {k}");
        }
    }
    assert_eq!(extract_words(&words), Ok(vec![0xFF]));
}

#[test]
fn inject_words_leaves_words_behind_the_stream() {
    let mut words = vec![ADD_1_2; 50];
    assert_eq!(inject_words(&mut words, &[0x00]), Ok(()));
    assert_eq!(&words[40..], &[ADD_1_2; 10][..]);
    assert_eq!(&words[32..40], &[ADD_2_1; 8][..]);
}

#[test]
fn swapping_twice_gives_the_word_back() {
    let mut words = vec![ADD_1_2; 32];
    inject_words(&mut words, &[]).unwrap();
    assert_eq!(words[0], ADD_2_1);
    let mut words = vec![ADD_2_1; 40];
    inject_words(&mut words, &[0xFF]).unwrap();
    assert_eq!(words[39], ADD_1_2);
    let mut again = vec![words[39]; 32];
    inject_words(&mut again, &[]).unwrap();
    assert_eq!(again[0], ADD_2_1);
}

#[test]
fn inject_words_refuses_a_stream_that_is_too_long() {
    let mut words = vec![ADD_1_2; 39];
    assert_eq!(inject_words(&mut words, &[0xFF]), Err(StegoError::CapacityExceeded));
    assert_eq!(words, vec![ADD_1_2; 39]);

    let mut words = vec![ADD_1_2; 40];
    assert_eq!(inject_words(&mut words, &[0xFF]), Ok(()));

    let mut none: Vec<u32> = vec![NOP; 100];
    assert_eq!(inject_words(&mut none, &[]), Err(StegoError::CapacityExceeded));
    assert_eq!(none, vec![NOP; 100]);

    // One carrying word and an empty payload: 32 bits do not fit one word.
    let mut one = vec![0x0b02_0020u32];
    assert_eq!(inject_words(&mut one, &[]), Err(StegoError::CapacityExceeded));
    assert_eq!(one, vec![0x0b02_0020u32]);
}

#[test]
fn can_carry_counts_the_carrying_words() {
    let words = [ADD_1_2, NOP, ADD_3_3, ADD_2_1, 0xcb02_0020];
    assert!(can_carry(&words, 0));
    assert!(can_carry(&words, 2));
    assert!(!can_carry(&words, 3));
    assert!(can_carry(&[], 0));
    assert!(!can_carry(&[], 1));
}

#[test]
fn words_round_trip() {
    let payload = b"operand order".to_vec();
    let mut words = Vec::new();
    for k in 0..200u32 {
        words.push(0x8b00_0000 | ((k % 31) << 16) | (((k * 7) % 31) << 5));
        words.push(NOP);
    }
    assert_eq!(inject_words(&mut words, &payload), Ok(()));
    assert_eq!(extract_words(&words), Ok(payload));
}

#[test]
fn extract_words_reports_a_missing_or_short_stream() {
    assert_eq!(extract_words(&[]), Err(StegoError::MalformedHeader));
    assert_eq!(extract_words(&[ADD_2_1; 31]), Err(StegoError::MalformedHeader));
    assert_eq!(extract_words(&[NOP; 64]), Err(StegoError::MalformedHeader));
    // 32 zero bits announce an empty payload.
    assert_eq!(extract_words(&[ADD_2_1; 32]), Ok(vec![]));
    assert_eq!(extract_words(&[ADD_2_1; 50]), Ok(vec![]));
    // Length 1 with only seven bits behind it.
    let mut words = vec![ADD_2_1; 39];
    words[7] = ADD_1_2;
    assert_eq!(extract_words(&words), Err(StegoError::MalformedHeader));
    words.push(ADD_1_2);
    assert_eq!(extract_words(&words), Ok(vec![0x01]));
}

#[test]
fn frame_puts_the_length_first() {
    assert_eq!(frame(&[]), vec![0, 0, 0, 0]);
    assert_eq!(frame(b"pog"), vec![3, 0, 0, 0, b'p', b'o', b'g']);
    assert_eq!(frame(&vec![7u8; 0x0102])[..6], [2, 1, 0, 0, 7, 7]);
}

#[test]
fn words_are_little_endian() {
    let bytes = [0xAA, 0x20, 0x00, 0x02, 0x8b, 0x1f, 0x20, 0x03, 0xd5, 0xBB, 0xCC];
    assert_eq!(read_words(&bytes, 1, 10), vec![ADD_1_2, NOP]);
    assert_eq!(read_words(&bytes, 1, 3), Vec::<u32>::new());
    let mut buffer = [0u8; 11];
    write_words(&mut buffer, 2, &vec![ADD_1_2, NOP]);
    assert_eq!(buffer, [0, 0, 0x20, 0x00, 0x02, 0x8b, 0x1f, 0x20, 0x03, 0xd5, 0]);
}

fn name(text: &[u8]) -> [u8; 16] {
    let mut raw = [0u8; 16];
    raw[..text.len()].copy_from_slice(text);
    raw
}

fn section(text: &[u8], offset: usize, len: usize) -> SectionLayout {
    SectionLayout { name: name(text), offset, len }
}

#[test]
fn locate_text_prefers_the_text_segment() {
    let segments = vec![
        SegmentLayout { name: name(b"__PAGEZERO"), sections: vec![] },
        SegmentLayout {
            name: name(b"__TEXT"),
            sections: vec![
                section(b"__stubs", 8, 4),
                section(b"__text", 100, 40),
                section(b"__text", 200, 8),
            ],
        },
        SegmentLayout { name: name(b"__TEXT"), sections: vec![section(b"__text", 300, 4)] },
    ];
    assert_eq!(locate_text(&segments), Some((100, 40)));
    assert_eq!(check_region(140, &segments), Ok((100, 40)));
    assert_eq!(check_region(139, &segments), Err(StegoError::UnsupportedCarrierLayout));
}

#[test]
fn locate_text_falls_back_to_the_first_segment() {
    let segments = vec![
        SegmentLayout { name: name(b"__DATA"), sections: vec![section(b"__text", 64, 16)] },
        SegmentLayout { name: name(b"__TEXT2"), sections: vec![section(b"__text", 128, 16)] },
    ];
    assert_eq!(locate_text(&segments), Some((64, 16)));
}

#[test]
fn locate_text_finds_nothing_without_a_text_section() {
    assert_eq!(locate_text(&vec![]), None);
    let segments = vec![
        SegmentLayout { name: name(b"__TEXT"), sections: vec![section(b"__textual", 64, 16)] },
        SegmentLayout { name: name(b"__DATA"), sections: vec![section(b"__text", 128, 16)] },
    ];
    assert_eq!(locate_text(&segments), None);
    assert_eq!(check_region(1000, &segments), Err(StegoError::UnsupportedCarrierLayout));
}

#[test]
fn locate_text_takes_a_name_of_sixteen_bytes_whole() {
    let segments = vec![SegmentLayout {
        name: *b"__TEXT__________",
        sections: vec![section(b"__text", 1, 2)],
    }, SegmentLayout { name: name(b"__TEXT"), sections: vec![section(b"__text", 3, 4)] }];
    assert_eq!(locate_text(&segments), Some((3, 4)));
}

fn push_u32(out: &mut Vec<u8>, value: u32) {
    out.extend_from_slice(&value.to_le_bytes());
}

fn push_u64(out: &mut Vec<u8>, value: u64) {
    out.extend_from_slice(&value.to_le_bytes());
}

// A 64-bit Mach-O file of one segment `__TEXT` with one section `__text`.
fn macho(code: &[u8]) -> Vec<u8> {
    let code_offset: u32 = 32 + 72 + 80;
    let total = code_offset as u64 + code.len() as u64;
    let mut out = Vec::new();
    push_u32(&mut out, 0xfeed_facf);
    push_u32(&mut out, 0x0100_000c);
    push_u32(&mut out, 0);
    push_u32(&mut out, 2);
    push_u32(&mut out, 1);
    push_u32(&mut out, 72 + 80);
    push_u32(&mut out, 0);
    push_u32(&mut out, 0);
    push_u32(&mut out, 0x19);
    push_u32(&mut out, 72 + 80);
    out.extend_from_slice(&name(b"__TEXT"));
    push_u64(&mut out, 0);
    push_u64(&mut out, 0x4000);
    push_u64(&mut out, 0);
    push_u64(&mut out, total);
    push_u32(&mut out, 5);
    push_u32(&mut out, 5);
    push_u32(&mut out, 1);
    push_u32(&mut out, 0);
    out.extend_from_slice(&name(b"__text"));
    out.extend_from_slice(&name(b"__TEXT"));
    push_u64(&mut out, code_offset as u64);
    push_u64(&mut out, code.len() as u64);
    push_u32(&mut out, code_offset);
    push_u32(&mut out, 2);
    push_u32(&mut out, 0);
    push_u32(&mut out, 0);
    push_u32(&mut out, 0x8000_0400);
    push_u32(&mut out, 0);
    push_u32(&mut out, 0);
    push_u32(&mut out, 0);
    assert_eq!(out.len(), code_offset as usize);
    out.extend_from_slice(code);
    out
}

fn code(words: &[u32]) -> Vec<u8> {
    let mut out = Vec::new();
    for word in words {
        push_u32(&mut out, *word);
    }
    out
}

#[test]
fn inject_string_rewrites_the_text_section_only() {
    let mut words = vec![NOP; 4];
    words.extend_from_slice(&[ADD_1_2; 80]);
    let mut buffer = macho(&code(&words));
    let before = buffer.clone();
    assert_eq!(inject_string(&mut buffer, b"mach"), Ok(()));
    assert_eq!(buffer.len(), before.len());
    assert_eq!(&buffer[..184 + 16], &before[..184 + 16]);
    assert_ne!(buffer, before);
    // "mach" has length 4: the third of the 32 length bits is the first one.
    assert_eq!(&read_words(&buffer, 184 + 16, 32)[..5], &[ADD_2_1; 5][..]);
    assert_eq!(read_words(&buffer, 184 + 16 + 20, 12), vec![ADD_1_2, ADD_2_1, ADD_2_1]);
    assert_eq!(extract_string(&buffer), Ok(b"mach".to_vec()));
}

#[test]
fn inject_string_leaves_a_section_that_is_too_small() {
    let mut buffer = macho(&code(&[ADD_1_2; 40]));
    let before = buffer.clone();
    assert_eq!(inject_string(&mut buffer, b"ab"), Err(StegoError::CapacityExceeded));
    assert_eq!(buffer, before);
    assert_eq!(extract_string(&buffer), Err(StegoError::MalformedHeader));
    assert_eq!(inject_string(&mut buffer, b"a"), Ok(()));
    assert_ne!(buffer, before);
    assert_eq!(extract_string(&buffer), Ok(b"a".to_vec()));
}

#[test]
fn segments_are_read_from_the_load_commands() {
    let buffer = macho(&code(&[NOP; 3]));
    let segments = parse_mach_segments(&buffer).unwrap();
    assert_eq!(segments.len(), 1);
    assert_eq!(segments[0].name, name(b"__TEXT"));
    assert_eq!(segments[0].sections.len(), 1);
    assert_eq!(segments[0].sections[0].name, name(b"__text"));
    assert_eq!(segments[0].sections[0].offset, 184);
    assert_eq!(segments[0].sections[0].len, 12);
    assert!(parse_mach_segments(&buffer[..100]).is_none());
    assert!(parse_mach_segments(&[]).is_none());
    assert!(parse_mach_segments(&[0x11; 64]).is_none());
}

#[test]
fn a_header_that_counts_too_many_commands_is_refused() {
    let mut buffer = macho(&code(&[ADD_2_1; 32]));
    assert_eq!(extract_string(&buffer), Ok(vec![]));
    // Twenty commands in 152 bytes.
    buffer[16] = 20;
    assert!(parse_mach_segments(&buffer).is_none());
    assert_eq!(extract_string(&buffer), Err(StegoError::UnsupportedCarrierLayout));
    // More bytes of commands than the file has.
    buffer[16] = 1;
    buffer[21] = 0x10;
    assert!(parse_mach_segments(&buffer).is_none());
}

// A 32-bit Mach-O file: a UUID command, then one segment with one section.
fn macho_32(code: &[u8]) -> Vec<u8> {
    let code_offset: u32 = 28 + 24 + 56 + 68;
    let mut out = Vec::new();
    push_u32(&mut out, 0xfeed_face);
    push_u32(&mut out, 12);
    push_u32(&mut out, 0);
    push_u32(&mut out, 2);
    push_u32(&mut out, 2);
    push_u32(&mut out, 24 + 56 + 68);
    push_u32(&mut out, 0);
    push_u32(&mut out, 0x1b);
    push_u32(&mut out, 24);
    out.extend_from_slice(&[7u8; 16]);
    push_u32(&mut out, 1);
    push_u32(&mut out, 56 + 68);
    out.extend_from_slice(&name(b"__TEXT"));
    push_u32(&mut out, 0);
    push_u32(&mut out, 0x4000);
    push_u32(&mut out, 0);
    push_u32(&mut out, code_offset + code.len() as u32);
    push_u32(&mut out, 5);
    push_u32(&mut out, 5);
    push_u32(&mut out, 1);
    push_u32(&mut out, 0);
    out.extend_from_slice(&name(b"__text"));
    out.extend_from_slice(&name(b"__TEXT"));
    push_u32(&mut out, code_offset);
    push_u32(&mut out, code.len() as u32);
    push_u32(&mut out, code_offset);
    push_u32(&mut out, 2);
    push_u32(&mut out, 0);
    push_u32(&mut out, 0);
    push_u32(&mut out, 0x8000_0400);
    push_u32(&mut out, 0);
    push_u32(&mut out, 0);
    assert_eq!(out.len(), code_offset as usize);
    out.extend_from_slice(code);
    out
}

#[test]
fn a_binary_of_the_32_bit_kind_carries_too() {
    let mut buffer = macho_32(&code(&[ADD_1_2; 48]));
    let segments = parse_mach_segments(&buffer).unwrap();
    assert_eq!(segments.len(), 1);
    assert_eq!(segments[0].sections[0].offset, 176);
    assert_eq!(segments[0].sections[0].len, 192);
    assert_eq!(inject_string(&mut buffer, b"32"), Ok(()));
    assert_eq!(extract_string(&buffer), Ok(b"32".to_vec()));
}

#[test]
fn an_entry_point_before_the_text_segment_is_no_trouble() {
    // A segment `__TEXT` at address 0 with file offset 1, then LC_MAIN.
    let mut buffer = Vec::new();
    push_u32(&mut buffer, 0xfeed_facf);
    push_u32(&mut buffer, 0x0100_000c);
    push_u32(&mut buffer, 0);
    push_u32(&mut buffer, 2);
    push_u32(&mut buffer, 2);
    push_u32(&mut buffer, 72 + 24);
    push_u32(&mut buffer, 0);
    push_u32(&mut buffer, 0);
    push_u32(&mut buffer, 0x19);
    push_u32(&mut buffer, 72);
    buffer.extend_from_slice(&name(b"__TEXT"));
    push_u64(&mut buffer, 0);
    push_u64(&mut buffer, 0);
    push_u64(&mut buffer, 1);
    push_u64(&mut buffer, 0);
    push_u32(&mut buffer, 5);
    push_u32(&mut buffer, 5);
    push_u32(&mut buffer, 0);
    push_u32(&mut buffer, 0);
    push_u32(&mut buffer, 0x8000_0028);
    push_u32(&mut buffer, 24);
    push_u64(&mut buffer, 0);
    push_u64(&mut buffer, 0);
    assert_eq!(buffer.len(), 128);
    let before = buffer.clone();
    let segments = parse_mach_segments(&buffer).unwrap();
    assert_eq!(segments.len(), 1);
    assert!(segments[0].sections.is_empty());
    assert_eq!(extract_string(&buffer), Err(StegoError::UnsupportedCarrierLayout));
    assert_eq!(inject_string(&mut buffer, b"x"), Err(StegoError::UnsupportedCarrierLayout));
    assert_eq!(buffer, before);
}

#[test]
fn extract_string_reads_a_section_with_a_ragged_end() {
    let mut bytes = code(&[ADD_2_1; 32]);
    bytes.extend_from_slice(&[1, 2, 3]);
    let buffer = macho(&bytes);
    assert_eq!(extract_string(&buffer), Ok(vec![]));
}

#[test]
fn other_formats_are_refused() {
    let mut elf = vec![0u8; 64];
    elf[..4].copy_from_slice(b"\x7fELF");
    elf[4] = 2;
    elf[5] = 1;
    elf[6] = 1;
    let before = elf.clone();
    assert_eq!(inject_string(&mut elf, b"x"), Err(StegoError::UnsupportedCarrierLayout));
    assert_eq!(elf, before);
    assert_eq!(extract_string(&elf), Err(StegoError::UnsupportedCarrierLayout));

    let mut junk = vec![0x11u8; 200];
    assert_eq!(inject_string(&mut junk, b"x"), Err(StegoError::UnsupportedCarrierLayout));
    assert_eq!(junk, vec![0x11u8; 200]);
    assert_eq!(extract_string(&[]), Err(StegoError::UnsupportedCarrierLayout));
    assert_eq!(extract_string(&[1, 2, 3]), Err(StegoError::UnsupportedCarrierLayout));

    // A fat Mach-O container.
    let mut fat = vec![0u8; 64];
    fat[..4].copy_from_slice(&[0xca, 0xfe, 0xba, 0xbe]);
    assert_eq!(extract_string(&fat), Err(StegoError::UnsupportedCarrierLayout));
}

#[test]
fn a_binary_without_text_section_is_refused() {
    let mut buffer = macho(&code(&[ADD_1_2; 40]));
    // Rename the section.
    buffer[32 + 72 + 2] = b'T';
    let before = buffer.clone();
    assert_eq!(inject_string(&mut buffer, b""), Err(StegoError::UnsupportedCarrierLayout));
    assert_eq!(buffer, before);
    assert_eq!(extract_string(&buffer), Err(StegoError::UnsupportedCarrierLayout));
}
