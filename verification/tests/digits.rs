//! The decimal reader on edge inputs: bounds, emptiness, signs, and
//! leading zeros.

use fixg::digits::parse_u32_dec;

#[test]
fn parse_u32_handles_bounds_and_rejects_junk() {
    assert_eq!(parse_u32_dec(b"0"), Some(0));
    assert_eq!(parse_u32_dec(b"1"), Some(1));
    assert_eq!(parse_u32_dec(b"4294967295"), Some(u32::MAX));
    assert_eq!(parse_u32_dec(b"4294967296"), None);
    assert_eq!(parse_u32_dec(b"99999999999999999999"), None);
    assert_eq!(parse_u32_dec(b""), None);
    assert_eq!(parse_u32_dec(b"+1"), None);
    assert_eq!(parse_u32_dec(b"-1"), None);
    assert_eq!(parse_u32_dec(b"1 2"), None);
    assert_eq!(parse_u32_dec(b"12a"), None);
    // leading zeros are read, not rejected
    assert_eq!(parse_u32_dec(b"007"), Some(7));
}
