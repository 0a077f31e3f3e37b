use utf8::{
    is_continuation_byte, valid_four_bytes_sequence_prefix, valid_three_bytes_sequence_prefix,
    width, REPLACEMENT_CHARACTER,
};

#[test]
fn width_of_every_byte() {
    for b in 0..=255u8 {
        let expected = match b {
            0x00..=0x7F => 1,
            0x80..=0xC1 => 0,
            0xC2..=0xDF => 2,
            0xE0..=0xEF => 3,
            0xF0..=0xF4 => 4,
            0xF5..=0xFF => 0,
        };
        assert_eq!(width(b), expected, "byte {:#04X}", b);
    }
}

#[test]
fn width_agrees_with_the_encoder() {
    for c in ['\0', 'A', '\u{7F}', '\u{80}', '\u{7FF}', '\u{800}', '\u{FFFF}', '\u{10000}',
        '\u{10FFFF}'] {
        let mut buffer = [0u8; 4];
        let encoded = c.encode_utf8(&mut buffer);
        assert_eq!(width(encoded.as_bytes()[0]) as usize, encoded.len());
    }
}

#[test]
fn continuation_bytes_have_the_top_bits_10() {
    for b in 0..=255u8 {
        assert_eq!(is_continuation_byte(b), (0x80..=0xBF).contains(&b), "byte {:#04X}", b);
    }
    assert!(is_continuation_byte(0x80));
    assert!(is_continuation_byte(0xBF));
    assert!(!is_continuation_byte(0x7F));
    assert!(!is_continuation_byte(0xC0));
}

#[test]
fn three_byte_prefixes() {
    for first in 0..=255u8 {
        for second in 0..=255u8 {
            let expected = match first {
                0xE0 => (0xA0..=0xBF).contains(&second),
                0xE1..=0xEC => (0x80..=0xBF).contains(&second),
                0xED => (0x80..=0x9F).contains(&second),
                0xEE..=0xEF => (0x80..=0xBF).contains(&second),
                _ => false,
            };
            assert_eq!(valid_three_bytes_sequence_prefix(first, second), expected);
        }
    }
    assert!(!valid_three_bytes_sequence_prefix(0xE0, 0x9F));
    assert!(valid_three_bytes_sequence_prefix(0xE0, 0xA0));
    assert!(valid_three_bytes_sequence_prefix(0xED, 0x9F));
    assert!(!valid_three_bytes_sequence_prefix(0xED, 0xA0));
}

#[test]
fn four_byte_prefixes() {
    for first in 0..=255u8 {
        for second in 0..=255u8 {
            let expected = match first {
                0xF0 => (0x90..=0xBF).contains(&second),
                0xF1..=0xF3 => (0x80..=0xBF).contains(&second),
                0xF4 => (0x80..=0x8F).contains(&second),
                _ => false,
            };
            assert_eq!(valid_four_bytes_sequence_prefix(first, second), expected);
        }
    }
    assert!(!valid_four_bytes_sequence_prefix(0xF0, 0x8F));
    assert!(valid_four_bytes_sequence_prefix(0xF0, 0x90));
    assert!(valid_four_bytes_sequence_prefix(0xF4, 0x8F));
    assert!(!valid_four_bytes_sequence_prefix(0xF4, 0x90));
}

#[test]
fn replacement_character_is_u_fffd() {
    assert_eq!(REPLACEMENT_CHARACTER, "\u{FFFD}");
    assert_eq!(REPLACEMENT_CHARACTER.as_bytes(), &[0xEF, 0xBF, 0xBD][..]);
}
