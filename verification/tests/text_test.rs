use portless::text::{
    char_is_lower_alnum, char_is_whitespace, char_lower, chars_of, find_char, find_seq, lower_eq,
    lower_range, parse_i32_range, parse_unsigned_range, path_join, push_decimal, push_range,
    push_str, range_ends_with, range_starts_with, str_eq, string_of, string_of_range, trim_bounds,
    without_occurrences,
};

fn chars(s: &str) -> Vec<char> {
    s.chars().collect()
}

#[test]
fn test_whitespace_is_that_of_unicode() {
    for n in 0..=0x10FFFFu32 {
        if let Some(c) = char::from_u32(n) {
            assert_eq!(char_is_whitespace(c), c.is_whitespace(), "U+{:04X}", n);
        }
    }
}

#[test]
fn test_lower_is_ascii_lower_case() {
    for n in 0..=0x10FFFFu32 {
        if let Some(c) = char::from_u32(n) {
            assert_eq!(char_lower(c), c.to_ascii_lowercase(), "U+{:04X}", n);
            assert_eq!(
                char_is_lower_alnum(c),
                c.is_ascii_lowercase() || c.is_ascii_digit(),
                "U+{:04X}",
                n
            );
        }
    }
}

#[test]
fn test_chars_and_strings() {
    assert_eq!(chars_of("h\u{e9}llo"), vec!['h', '\u{e9}', 'l', 'l', 'o']);
    assert_eq!(chars_of(""), Vec::<char>::new());
    assert_eq!(string_of(&chars("w\u{f6}rld")), "w\u{f6}rld");
    assert_eq!(string_of_range(&chars("abcdef"), 2, 4), "cd");
    assert_eq!(string_of_range(&chars("abcdef"), 3, 3), "");
    assert_eq!(lower_range(&chars("AbC-\u{c9}z"), 0, 5), chars("abc-\u{c9}"));
}

#[test]
fn test_trim_bounds_agree_with_trim() {
    let samples = [
        "", " ", "a", " a", "a ", "  a b  ", "\t\n a\u{a0}", "\u{3000}x\u{2028}", "   ", "a  b",
        "\r\n", " \u{feff} ",
    ];
    for s in samples {
        let v = chars(s);
        let (a, b) = trim_bounds(&v);
        assert_eq!(string_of_range(&v, a, b), s.trim(), "{:?}", s);
    }
}

#[test]
fn test_find_char_and_find_seq() {
    let v = chars("a:b:c");
    assert_eq!(find_char(&v, 0, 5, ':'), 1);
    assert_eq!(find_char(&v, 2, 5, ':'), 3);
    assert_eq!(find_char(&v, 4, 5, ':'), 5);
    assert_eq!(find_char(&v, 0, 1, ':'), 1);
    assert_eq!(find_char(&v, 0, 0, ':'), 0);

    let v = chars("abcabcabd");
    assert_eq!(find_seq(&v, 0, 9, &chars("abd")), 6);
    assert_eq!(find_seq(&v, 1, 9, &chars("abc")), 3);
    assert_eq!(find_seq(&v, 0, 8, &chars("abd")), 8);
    assert_eq!(find_seq(&v, 0, 9, &chars("x")), 9);
    assert_eq!(find_seq(&v, 2, 9, &chars("")), 2);
    assert_eq!(find_seq(&v, 9, 9, &chars("")), 9);
}

#[test]
fn test_range_prefix_and_suffix() {
    let v = chars("http://x.localhost");
    assert!(range_starts_with(&v, 0, v.len(), &chars("http://")));
    assert!(!range_starts_with(&v, 0, v.len(), &chars("https://")));
    assert!(!range_starts_with(&v, 0, 3, &chars("http")));
    assert!(range_starts_with(&v, 7, v.len(), &chars("x.")));
    assert!(range_starts_with(&v, 3, 3, &chars("")));
    assert!(range_ends_with(&v, 0, v.len(), &chars(".localhost")));
    assert!(!range_ends_with(&v, 0, v.len() - 1, &chars(".localhost")));
    assert!(!range_ends_with(&v, 10, v.len(), &chars(".localhost")));
    assert!(range_ends_with(&v, 8, v.len(), &chars(".localhost")));
}

#[test]
fn test_pushes() {
    let mut out = chars("n=");
    push_decimal(&mut out, 0);
    push_str(&mut out, ",");
    push_decimal(&mut out, 4294967295);
    push_str(&mut out, ",");
    push_decimal(&mut out, 1000);
    push_range(&mut out, &chars("abcdef"), 1, 3);
    assert_eq!(string_of(&out), "n=0,4294967295,1000bc");
}

#[test]
fn test_decimal_agrees_with_formatting() {
    for n in [0u32, 1, 9, 10, 11, 99, 100, 101, 1355, 4999, 65535, 65536, 999999, u32::MAX] {
        let mut out = Vec::new();
        push_decimal(&mut out, n);
        assert_eq!(string_of(&out), format!("{}", n));
    }
}

#[test]
fn test_parse_unsigned_agrees_with_parse() {
    let samples = [
        "", "0", "00", "007", "1355", "+1355", "++1", "+", "-1", "-0", " 1", "1 ", "65535",
        "65536", "99999999999999999999", "12a", "a12", "4294967295", "4294967296", "1_000",
        "\u{663}",
    ];
    for s in samples {
        let v = chars(s);
        assert_eq!(
            parse_unsigned_range(&v, 0, v.len(), 65535),
            s.parse::<u16>().ok().map(|n| n as u32),
            "{:?}",
            s
        );
        assert_eq!(parse_unsigned_range(&v, 0, v.len(), u32::MAX), s.parse::<u32>().ok(), "{:?}", s);
    }
    let v = chars("ab123cd");
    assert_eq!(parse_unsigned_range(&v, 2, 5, 1000), Some(123));
    assert_eq!(parse_unsigned_range(&v, 2, 5, 122), None);
    assert_eq!(parse_unsigned_range(&v, 2, 6, 1000), None);
}

#[test]
fn test_parse_i32_agrees_with_parse() {
    let samples = [
        "", "0", "-0", "+0", "-", "+", "12345", "-12345", "2147483647", "2147483648",
        "-2147483648", "-2147483649", "--1", "-+1", "+-1", " -1", "1e3", "-007",
    ];
    for s in samples {
        let v = chars(s);
        assert_eq!(parse_i32_range(&v, 0, v.len()), s.parse::<i32>().ok(), "{:?}", s);
    }
}

#[test]
fn test_path_join_agrees_with_paths() {
    let cases = [
        ("/tmp", "x"), ("/tmp/", "x"), ("", "x"), ("/", "x"), ("a/b", ".portless"), ("rel", "f.json"),
    ];
    for (dir, name) in cases {
        let expected = std::path::Path::new(dir).join(name);
        assert_eq!(path_join(dir, name), expected.to_str().unwrap(), "{:?} {:?}", dir, name);
    }
    assert_eq!(path_join("/home/me", ".portless"), "/home/me/.portless");
}

#[test]
fn test_comparisons() {
    assert!(str_eq("abc", "abc"));
    assert!(!str_eq("abc", "abd"));
    assert!(!str_eq("abc", "ab"));
    assert!(str_eq("", ""));
    assert!(lower_eq("SKIP", "skip"));
    assert!(lower_eq("skip", "skip"));
    assert!(!lower_eq("skip", "SKIP"));
    assert!(!lower_eq("skipp", "skip"));
    assert!(lower_eq("", ""));
}

#[test]
fn test_without_occurrences_agrees_with_replace() {
    let cases = [
        ("app.localhost", ".localhost"),
        ("a.localhost.localhost", ".localhost"),
        (".localhost", ".localhost"),
        ("localhost", ".localhost"),
        ("aaa", "aa"),
        ("ababab", "ab"),
        ("abcabc", "bc"),
        ("", "x"),
        ("x.localhos", ".localhost"),
        ("..localhost.", ".localhost"),
    ];
    for (s, p) in cases {
        assert_eq!(string_of(&without_occurrences(s, p)), s.replace(p, ""), "{:?} {:?}", s, p);
    }
    // Nothing is taken out where there is nothing to look for.
    assert_eq!(string_of(&without_occurrences("abc", "")), "abc");
}
