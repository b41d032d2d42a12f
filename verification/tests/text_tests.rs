use allnodes::text::{parse_u64_bounded, push_decimal, push_hex_padded, split_whitespace, str_equal, trim_str};

#[test]
fn trimming_and_splitting() {
    assert_eq!(trim_str("  a b \u{3000}"), "a b");
    assert_eq!(trim_str("\u{85}"), "");
    assert_eq!(split_whitespace(" a  b\tc\n"), vec!["a", "b", "c"]);
    assert_eq!(split_whitespace(""), Vec::<String>::new());
    for s in ["x", " 1 2 ", "\u{a0}q\u{2003}r"] {
        let expected: Vec<String> = s.split_whitespace().map(|w| w.to_string()).collect();
        assert_eq!(split_whitespace(s), expected);
        assert_eq!(trim_str(s), s.trim());
    }
}

#[test]
fn numbers() {
    let mut s = String::new();
    push_decimal(&mut s, 1234567890);
    assert_eq!(s, "1234567890");
    let mut h = String::new();
    push_hex_padded(&mut h, 0xbeef, 6);
    assert_eq!(h, "00beef");
    assert_eq!(parse_u64_bounded("300", 255), None);
    assert_eq!(parse_u64_bounded("255", 255), Some(255));
    assert!(str_equal("ab", "ab"));
    assert!(!str_equal("ab", "abc"));
}
