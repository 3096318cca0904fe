use qemulbench::bytes::{parse_hex_field, push_hex_pad, push_hex_pad_succ, push_zeros};
use qemulbench::text::{
    check_utf8, chars_eq, decimal_string, parse_i32, parse_usize, str_ascii_bytes, str_chars, trim_chars,
    white_space,
};

fn c(s: &str) -> Vec<char> {
    s.chars().collect()
}

#[test]
fn trimming_matches_str_trim() {
    for s in ["", "   ", " a ", "\t x y \n", "\u{3000}wide\u{a0}", "plain", "\u{200b}zw"] {
        assert_eq!(trim_chars(&c(s)), c(s.trim()), "{:?}", s);
    }
}

#[test]
fn white_space_matches_char_is_whitespace() {
    for u in 0u32..0x3100 {
        if let Some(ch) = char::from_u32(u) {
            assert_eq!(white_space(ch), ch.is_whitespace(), "{:x}", u);
        }
    }
}

#[test]
fn numbers_parse_like_str_parse() {
    for s in ["0", "42", "+7", "-3", "", "+", "-", "1a", "007", "4294967296", "18446744073709551615", "18446744073709551616"] {
        assert_eq!(parse_usize(&c(s)), s.parse::<usize>().ok(), "{}", s);
    }
    for s in ["0", "-0", "2147483647", "2147483648", "-2147483648", "-2147483649", "+12", "--1", " 1"] {
        assert_eq!(parse_i32(&c(s)), s.parse::<i32>().ok(), "{}", s);
    }
}

#[test]
fn decimal_strings() {
    for n in [0u64, 7, 10, 99, 1234567890, u64::MAX] {
        assert_eq!(decimal_string(n), c(&n.to_string()));
    }
}

#[test]
fn small_helpers() {
    assert!(chars_eq(&c("abc"), &c("abc")));
    assert!(!chars_eq(&c("abc"), &c("abd")));
    assert!(!chars_eq(&c("ab"), &c("abc")));
    assert_eq!(str_chars("héllo"), c("héllo"));
    assert_eq!(str_ascii_bytes("-smp"), b"-smp".to_vec());
    assert!(check_utf8("héllo".as_bytes()));
    assert!(!check_utf8(&[0xc0, 0x80]));
    assert!(!check_utf8(&[0xed, 0xa0, 0x80]));
}

#[test]
fn hex_fields() {
    let mut out = Vec::new();
    push_hex_pad(&mut out, 0x1a4, 8);
    assert_eq!(out, b"000001a4".to_vec());
    let mut out = Vec::new();
    push_hex_pad(&mut out, 0x123456789, 8);
    assert_eq!(out, format!("{:08x}", 0x123456789u64).into_bytes());
    let mut out = Vec::new();
    push_hex_pad_succ(&mut out, 0xff, 8);
    assert_eq!(out, b"00000100".to_vec());
    let mut out = Vec::new();
    push_hex_pad_succ(&mut out, usize::MAX, 2);
    assert_eq!(out, format!("{:02x}", (usize::MAX as u128) + 1).into_bytes());
    let mut out = vec![1u8];
    push_zeros(&mut out, 3);
    assert_eq!(out, vec![1, 0, 0, 0]);
    assert_eq!(parse_hex_field(b"000001A4"), Some(0x1a4));
    assert_eq!(parse_hex_field(b"ffffffff"), Some(u32::MAX));
    assert_eq!(parse_hex_field(b"0000000g"), None);
    assert_eq!(parse_hex_field(b"+0000001"), Some(1));
}
