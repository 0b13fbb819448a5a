use sh42::text::{char_is_space, chars_of, parse_i32, parse_u32, str_contains_char, string_from_chars};

#[test]
fn whitespace_class_matches_std() {
    for c in (0u32..0x11_0000).filter_map(char::from_u32) {
        assert_eq!(char_is_space(c), c.is_whitespace(), "{:?}", c);
    }
}

#[test]
fn u32_parsing_matches_std() {
    for s in ["0", "42", "+7", "4294967295", "4294967296", "", "+", "-1", "1a", " 1", "007", "99999999999"] {
        assert_eq!(parse_u32(s), s.parse::<u32>().ok(), "{:?}", s);
    }
}

#[test]
fn i32_parsing_matches_std() {
    for s in [
        "0", "-0", "42", "+7", "-7", "2147483647", "2147483648", "-2147483648", "-2147483649", "",
        "-", "+", "--1", "1a", "12 ", "-x",
    ] {
        assert_eq!(parse_i32(s), s.parse::<i32>().ok(), "{:?}", s);
    }
}

#[test]
fn chars_round_trip() {
    let s = "héllo, wörld";
    let v = chars_of(s);
    assert_eq!(v, s.chars().collect::<Vec<_>>());
    assert_eq!(string_from_chars(&v), s);
}

#[test]
fn contains_char() {
    assert!(str_contains_char("a=b", '='));
    assert!(!str_contains_char("ab", '='));
    assert!(!str_contains_char("", '='));
}
