//! Numbers and bytes as text.

use p2p_distribute::text::{chars_of, hex_encode, read_decimal};

/// Bytes are written in lower-case hexadecimal.
#[test]
fn hex_of_bytes() {
    assert_eq!(hex_encode(&[0x00, 0x9F, 0xA0, 0xFF]), "009fa0ff");
    assert_eq!(hex_encode(&[]), "");
}

/// Decimal numbers are read up to a limit.
#[test]
fn decimal_numbers() {
    assert_eq!(read_decimal(&chars_of("0042"), 100), Some(42));
    assert_eq!(read_decimal(&chars_of("100"), 100), Some(100));
    assert_eq!(read_decimal(&chars_of("101"), 100), None);
    assert_eq!(read_decimal(&chars_of(""), 100), None);
    assert_eq!(read_decimal(&chars_of("1a"), 100), None);
}
