use hl_blockscope::text::{
    chars_of, decimal_string, eq_ignore_case, hex_tag, read_hex, read_hex_or_zero, same, short,
    shortens, skip_0x, take_chars,
};

#[test]
fn decimal_numerals() {
    assert_eq!(decimal_string(0), "0");
    assert_eq!(decimal_string(7), "7");
    assert_eq!(decimal_string(1200), "1200");
    assert_eq!(decimal_string(18446744073709551615), "18446744073709551615");
}

#[test]
fn hexadecimal_numerals() {
    assert_eq!(read_hex_or_zero("0xff"), 255);
    assert_eq!(read_hex_or_zero("0xFf"), 255);
    assert_eq!(read_hex_or_zero("ff"), 255);
    assert_eq!(read_hex_or_zero("+ff"), 255);
    assert_eq!(read_hex_or_zero("0x0x10"), 16);
    assert_eq!(read_hex_or_zero("0xffffffffffffffff"), 18446744073709551615);
    assert_eq!(read_hex_or_zero("0x10000000000000000"), 0);
    assert_eq!(read_hex_or_zero("0x"), 0);
    assert_eq!(read_hex_or_zero("0x-1"), 0);
    assert_eq!(read_hex_or_zero("0xzz"), 0);
    assert_eq!(read_hex_or_zero(""), 0);
}

#[test]
fn hexadecimal_from_a_place() {
    let s = chars_of("0x1f");
    assert_eq!(skip_0x(&s), 2);
    assert_eq!(read_hex(&s, 2), Some(31));
    assert_eq!(read_hex(&s, 0), None);
    assert_eq!(read_hex(&s, 4), None);
}

#[test]
fn hexadecimal_agrees_with_the_standard_library() {
    for s in ["0", "a", "7fffffffffffffff", "+1", "-1", "", "+", "g", "00000000000000000001"] {
        assert_eq!(read_hex_or_zero(s), u64::from_str_radix(s, 16).unwrap_or(0), "{s}");
    }
}

#[test]
fn tags_read_back() {
    assert_eq!(hex_tag(0), "0x0");
    assert_eq!(hex_tag(255), "0xff");
    for n in [0, 1, 15, 16, 255, 256, 1_000_000, u64::MAX] {
        assert_eq!(hex_tag(n), format!("0x{n:x}"));
        assert_eq!(read_hex_or_zero(&hex_tag(n)), n);
    }
}

#[test]
fn first_characters() {
    assert_eq!(take_chars("0x1234567890", 10), "0x12345678");
    assert_eq!(take_chars("short", 10), "short");
    assert_eq!(take_chars("\u{e9}\u{e8}a", 2), "\u{e9}\u{e8}");
}

#[test]
fn ascii_case_is_ignored() {
    assert!(eq_ignore_case("0xABcd", "0xabCD"));
    assert!(!eq_ignore_case("0xab", "0xac"));
    assert!(!eq_ignore_case("ab", "abc"));
    assert!(!eq_ignore_case("\u{c9}", "\u{e9}"));
}

#[test]
fn strings_are_told_apart() {
    assert!(same("okx", "okx"));
    assert!(!same("okx", "okX"));
}

#[test]
fn long_addresses_are_shortened() {
    assert_eq!(short("0x1234567890abcdef"), "0x1234..cdef");
    assert_eq!(short("0x1234567890a"), "0x1234..890a");
    assert_eq!(short("0x1234567890"), "0x1234567890");
    assert_eq!(short(""), "");
}

#[test]
fn a_cut_character_cannot_be_shortened() {
    assert!(shortens("0x1234567890abcdef"));
    assert!(shortens("\u{e9}\u{e9}"));
    assert!(!shortens("01234\u{e9}7890123"));
    assert!(!shortens("0123456789\u{20ac}12"));
    assert!(shortens("012345\u{20ac}789"));
}
