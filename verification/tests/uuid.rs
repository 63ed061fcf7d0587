use fress::uuid::{
    as_hex, ascii, field, gather, get_bit, hit, is_hex, parse, Guide, Uuid_, HEX,
};

const SHOULD_BE: &str = "A uuid should be 32 hex digits with 4 dashes dividing them into groups of (8 4 4 4 12), like: #uuid \"F81D4FAE-7DEC-11D0-A765-00A0C91E6BF6\".";

fn message(detail: &str) -> String {
    format!("Bad uuid, {}. {}", detail, SHOULD_BE)
}

#[test]
fn get_bit_selects_a_word_by_bit_six() {
    assert_eq!(get_bit(0b100, 0, 2), 1);
    assert_eq!(get_bit(0b100, 0, 1), 0);
    assert_eq!(get_bit(0, 1 << 5, 64 + 5), 1);
    assert_eq!(get_bit(1 << 5, 0, 64 + 5), 0);
    assert_eq!(get_bit(1 << 63, 0, 63), 1);
    // bit 7 of the index is not looked at
    assert_eq!(get_bit(0b100, 0, 128 + 2), 1);
    assert_eq!(get_bit(0, 0b100, 192 + 2), 1);
}

#[test]
fn hit_reads_the_pattern() {
    assert!(hit(b'0', HEX));
    assert!(hit(b'F', HEX));
    assert!(!hit(b'G', HEX));
    assert!(hit(3, (0b1000, 0)));
    // a byte from 128 up selects the bit of its low seven bits
    assert!(hit(0x80 | b'7', HEX));
}

#[test]
fn is_hex_accepts_hex_digits_only() {
    for b in 0u8..128 {
        let expected = (b'0'..=b'9').contains(&b) || (b'A'..=b'F').contains(&b) || (b'a'..=b'f').contains(&b);
        assert_eq!(is_hex(b), expected, "byte {}", b);
    }
    for b in 128u8..=255 {
        assert!(!is_hex(b), "byte {}", b);
    }
    assert!(!is_hex(0x80 | b'7'));
    assert!(!is_hex(0xB0));
}

#[test]
fn as_hex_gives_digit_values() {
    assert_eq!(as_hex(b'0'), 0);
    assert_eq!(as_hex(b'9'), 9);
    assert_eq!(as_hex(b'A'), 10);
    assert_eq!(as_hex(b'F'), 15);
    assert_eq!(as_hex(b'a'), 10);
    assert_eq!(as_hex(b'f'), 15);
    assert_eq!(as_hex(b'z'), 35);
}

#[test]
fn ascii_is_below_0x80() {
    assert!(ascii(0));
    assert!(ascii(0x7F));
    assert!(!ascii(0x80));
    assert!(!ascii(0xFF));
}

#[test]
fn field_masks_low_bits() {
    assert_eq!(field(0), 0);
    assert_eq!(field(1), 1);
    assert_eq!(field(16), 0xFFFF);
    assert_eq!(field(48), 0xFFFF_FFFF_FFFF);
    assert_eq!(field(63), 0x7FFF_FFFF_FFFF_FFFF);
}

#[test]
fn gather_reads_hex_numbers() {
    assert_eq!(gather(b""), Some(0));
    assert_eq!(gather(b"F81D4FAE"), Some(0xF81D4FAE));
    assert_eq!(gather(b"f81d4fae"), Some(0xF81D4FAE));
    assert_eq!(gather(b"00A0C91E6BF6"), Some(0x00A0C91E6BF6));
    assert_eq!(gather(b"12G4"), None);
    assert_eq!(gather(b"-"), None);
    // a non-hex byte stops the reading before any byte after it
    assert_eq!(gather(&[b'x', 0x80]), None);
}

#[test]
fn gather_keeps_the_last_sixteen_digits() {
    assert_eq!(gather(b"123456789ABCDEF0"), Some(0x1234_5678_9ABC_DEF0));
    assert_eq!(gather(b"F123456789ABCDEF0"), Some(0x1234_5678_9ABC_DEF0));
}

#[test]
fn parse_reads_the_halves() {
    let r = parse(b"F81D4FAE-7DEC-11D0-A765-00A0C91E6BF6");
    assert_eq!(r, Ok((0xF81D4FAE_7DEC_11D0, 0xA765_00A0C91E6BF6)));
    let r = parse(b"f81d4fae-7dec-11d0-a765-00a0c91e6bf6");
    assert_eq!(r, Ok((0xF81D4FAE_7DEC_11D0, 0xA765_00A0C91E6BF6)));
    let r = parse(b"00000000-0000-0000-0000-000000000000");
    assert_eq!(r, Ok((0, 0)));
    let r = parse(b"FFFFFFFF-FFFF-FFFF-FFFF-FFFFFFFFFFFF");
    assert_eq!(r, Ok((u64::MAX, u64::MAX)));
}

#[test]
fn parse_names_each_fault() {
    assert_eq!(parse(b"F81D4FAE-7DEC-11D0-A765-00A0C91E6BF"), Err(message("too short")));
    assert_eq!(parse(b""), Err(message("too short")));
    assert_eq!(parse(b"F81D4FAE-7DEC-11D0-A765-00A0C91E6BF67"), Err(message("too long")));
    assert_eq!(parse(b"F81D4FAE7-DEC-11D0-A765-00A0C91E6BF6"), Err(message("groups aren't right")));
    assert_eq!(parse(b"F81D4FAE-7DEC-11D0-A765_00A0C91E6BF6"), Err(message("groups aren't right")));
    assert_eq!(parse(b"F81D4FAG-7DEC-11D0-A765-00A0C91E6BF6"), Err(message("first group contains non-hex characters")));
    assert_eq!(parse(b"F81D4FAE-7DEX-11D0-A765-00A0C91E6BF6"), Err(message("second group contains non-hex characters")));
    assert_eq!(parse(b"F81D4FAE-7DEC-1 D0-A765-00A0C91E6BF6"), Err(message("third group contains non-hex characters")));
    assert_eq!(parse(b"F81D4FAE-7DEC-11D0-A7.5-00A0C91E6BF6"), Err(message("fourth group contains non-hex characters")));
    assert_eq!(parse(b"F81D4FAE-7DEC-11D0-A765-00A0C91E6BFz"), Err(message("fifth group contains non-hex characters")));
}

#[test]
fn edn_writes_the_canonical_text() {
    let g = Guide { hash: 0, top: 0xF81D4FAE_7DEC_11D0, bot: 0xA765_00A0C91E6BF6 };
    assert_eq!(Uuid_ {}.edn(&g), "#uuid \"F81D4FAE-7DEC-11D0-A765-00A0C91E6BF6\"");
    let g = Guide { hash: 0, top: 1, bot: 2 };
    assert_eq!(Uuid_ {}.edn(&g), "#uuid \"00000000-0000-0001-0000-000000000002\"");
}

#[test]
fn edn_text_parses_back() {
    for (top, bot) in [(0u64, 0u64), (1, 2), (u64::MAX, u64::MAX), (0x0123_4567_89AB_CDEF, 0xFEDC_BA98_7654_3210)] {
        let g = Guide { hash: 0, top, bot };
        let text = Uuid_ {}.edn(&g);
        let inner = &text.as_bytes()[7..43];
        assert_eq!(parse(inner), Ok((top, bot)));
    }
}

#[test]
fn parse_then_edn_gives_upper_case() {
    let source = "f81d4fae-7dec-11d0-a765-00a0c91e6bf6";
    let (top, bot) = parse(source.as_bytes()).unwrap();
    let g = Guide { hash: 0, top, bot };
    assert_eq!(Uuid_ {}.edn(&g), format!("#uuid \"{}\"", source.to_uppercase()));
}

#[test]
fn eq_compares_both_halves() {
    let u = Uuid_ {};
    let a = Guide { hash: 0, top: 1, bot: 2 };
    let b = Guide { hash: 7, top: 1, bot: 2 };
    let c = Guide { hash: 0, top: 1, bot: 3 };
    assert!(u.eq(&a, Some(&b)));
    assert!(!u.eq(&a, Some(&c)));
    assert!(!u.eq(&a, None));
}

#[test]
fn new_parsed_builds_a_uuid_without_hash() {
    let g = fress::uuid::new_parsed(b"F81D4FAE-7DEC-11D0-A765-00A0C91E6BF6").unwrap();
    assert_eq!((g.hash, g.top, g.bot), (0, 0xF81D4FAE_7DEC_11D0, 0xA765_00A0C91E6BF6));
    assert_eq!(fress::uuid::new_parsed(b"nope").err(), Some(message("too short")));
}
