//! Decimal rendering and parsing: the text behind tile locators and
//! cache file names.

use tilecore::text::{parse_u32, push_decimal, to_decimal};

#[test]
fn renders_decimals_without_leading_zeros() {
    assert_eq!(to_decimal(0), "0");
    assert_eq!(to_decimal(7), "7");
    assert_eq!(to_decimal(10), "10");
    assert_eq!(to_decimal(12345), "12345");
    assert_eq!(to_decimal(u64::MAX), "18446744073709551615");
    let mut s = String::from("z=");
    push_decimal(&mut s, 42);
    assert_eq!(s, "z=42");
}

#[test]
fn parses_exactly_the_canonical_renderings() {
    assert_eq!(parse_u32("0"), Some(0));
    assert_eq!(parse_u32("7"), Some(7));
    assert_eq!(parse_u32("4294967295"), Some(u32::MAX));
    for n in [0u32, 1, 9, 10, 99, 100, 65535, u32::MAX] {
        assert_eq!(parse_u32(&to_decimal(n as u64)), Some(n));
    }
    // Out of range, empty, padded or decorated forms are all rejected.
    assert_eq!(parse_u32("4294967296"), None);
    assert_eq!(parse_u32("99999999999999999999"), None);
    assert_eq!(parse_u32(""), None);
    assert_eq!(parse_u32("007"), None);
    assert_eq!(parse_u32("00"), None);
    assert_eq!(parse_u32("-7"), None);
    assert_eq!(parse_u32("+7"), None);
    assert_eq!(parse_u32("7 "), None);
    assert_eq!(parse_u32("4 2"), None);
}
