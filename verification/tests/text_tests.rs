use orbutils::text::{
    chars_of, contains_char, ends_with_chars, eq_chars, find_char_from, is_whitespace,
    parse_unsigned_chars, push_all, push_dec, push_hex, push_pad2, push_pad2_signed,
    slice_chars, split_field_chars, starts_with_chars, string_of, trim_char_chars, trim_chars,
};

fn chars(s: &str) -> Vec<char> {
    s.chars().collect()
}

fn text(v: &[char]) -> String {
    v.iter().collect()
}

#[test]
fn whitespace_matches_std() {
    for u in 0u32..0x3100 {
        if let Some(c) = char::from_u32(u) {
            assert_eq!(is_whitespace(c), c.is_whitespace(), "U+{:04X}", u);
        }
    }
    for c in ['\u{FEFF}', '\u{10FFFF}', '\u{1F600}'] {
        assert_eq!(is_whitespace(c), c.is_whitespace());
    }
}

#[test]
fn chars_and_strings() {
    assert_eq!(chars_of("zażółć"), chars("zażółć"));
    assert_eq!(string_of(&chars("gęś")), "gęś");
    assert_eq!(string_of(&[]), "");
}

#[test]
fn trim_matches_std() {
    for s in ["", "  ", " a ", "\t\nab c\r\n", "\u{3000}x\u{a0}", "x", "a b"] {
        assert_eq!(text(&trim_chars(&chars(s))), s.trim());
    }
}

#[test]
fn trim_char_matches_std() {
    for s in ["", "\"", "\"\"", "\"a\"", "\"\"a b\"", "a\"b"] {
        assert_eq!(text(&trim_char_chars(&chars(s), '"')), s.trim_matches('"'));
    }
}

#[test]
fn slices_and_affixes() {
    let v = chars("category=Games");
    assert_eq!(text(&slice_chars(&v, 9, v.len())), "Games");
    assert!(starts_with_chars(&v, &chars("category=")));
    assert!(!starts_with_chars(&chars("cat"), &chars("category=")));
    assert!(ends_with_chars(&v, &chars("Games")));
    assert!(ends_with_chars(&v, &[]));
    assert!(!ends_with_chars(&v, &chars("games")));
}

#[test]
fn find_and_contains() {
    let v = chars("a:b:c");
    assert_eq!(find_char_from(&v, ':', 0), 1);
    assert_eq!(find_char_from(&v, ':', 2), 3);
    assert_eq!(find_char_from(&v, ':', 4), 5);
    assert_eq!(find_char_from(&v, ':', 5), 5);
    assert!(contains_char(&v, 'c'));
    assert!(!contains_char(&v, 'd'));
    assert!(eq_chars(&v, &chars("a:b:c")));
    assert!(!eq_chars(&v, &chars("a:b")));
}

#[test]
fn split_fields_match_std() {
    for s in ["", "a", "a:b", ":b:", "a::c", "x:y:z:w"] {
        let parts: Vec<&str> = s.split(':').collect();
        for k in 0..6usize {
            let got = split_field_chars(&chars(s), ':', k).map(|f| text(&f));
            assert_eq!(got.as_deref(), parts.get(k).copied(), "{:?} {}", s, k);
        }
    }
}

#[test]
fn numbers_format_like_std() {
    for n in [0u64, 7, 10, 99, 100, 12345, u64::MAX] {
        let mut out = chars("x");
        push_dec(&mut out, n);
        assert_eq!(text(&out), format!("x{}", n));
        let mut out = Vec::new();
        push_hex(&mut out, n);
        assert_eq!(text(&out), format!("{:x}", n));
        let mut out = Vec::new();
        push_pad2(&mut out, n);
        assert_eq!(text(&out), format!("{:02}", n));
    }
    for v in [-100i64, -9, -1, 0, 5, 59, 100] {
        let mut out = Vec::new();
        push_pad2_signed(&mut out, v);
        assert_eq!(text(&out), format!("{:02}", v));
    }
    let mut out = chars("ab");
    push_all(&mut out, &chars("cd"));
    assert_eq!(text(&out), "abcd");
}

#[test]
fn parse_matches_std() {
    for s in ["", "0", "42", "+42", "+", "-1", "4294967295", "4294967296", "007", "1a", " 1"] {
        let got = parse_unsigned_chars(&chars(s), u32::MAX as u64);
        assert_eq!(got, s.parse::<u32>().ok().map(|n| n as u64), "{:?}", s);
    }
    assert_eq!(parse_unsigned_chars(&chars("18446744073709551615"), u64::MAX), Some(u64::MAX));
    assert_eq!(parse_unsigned_chars(&chars("18446744073709551616"), u64::MAX), None);
}
