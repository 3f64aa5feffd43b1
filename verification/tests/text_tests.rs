use std::path::PathBuf;

use nightwhale::paths::{flatten, join_path};
use nightwhale::text::{chars_of, is_whitespace, join_strings, occurs_slice, str_lt, trim_bounds};

#[test]
fn whitespace_is_the_unicode_white_space_set() {
    for c in ['\t', '\n', '\u{0b}', '\u{0c}', '\r', ' ', '\u{85}', '\u{a0}', '\u{1680}', '\u{2000}', '\u{200a}', '\u{2028}', '\u{2029}', '\u{202f}', '\u{205f}', '\u{3000}'] {
        assert!(is_whitespace(c), "{:?}", c);
    }
    for c in ['a', '_', '\u{200b}', '\u{180e}', '\u{feff}', '\u{1f}'] {
        assert!(!is_whitespace(c), "{:?}", c);
    }
    for n in 0u32..0x3100 {
        if let Some(c) = char::from_u32(n) {
            assert_eq!(is_whitespace(c), c.is_whitespace(), "{:#x}", n);
        }
    }
}

#[test]
fn trim_bounds_drops_surrounding_whitespace() {
    let v = chars_of("  ab c \n");
    assert_eq!(trim_bounds(&v), (2, 6));
    let v = chars_of(" \u{3000} ");
    let (a, b) = trim_bounds(&v);
    assert_eq!(a, b);
    let v = chars_of("x");
    assert_eq!(trim_bounds(&v), (0, 1));
    let v = chars_of("");
    assert_eq!(trim_bounds(&v), (0, 0));
}

#[test]
fn chars_of_lists_the_characters() {
    let s = "夜鲲 — idea";
    let v = chars_of(s);
    assert_eq!(v, s.chars().collect::<Vec<char>>());
}

#[test]
fn occurs_slice_finds_substrings() {
    let hay = chars_of("agent memory across sessions");
    let q = chars_of("xx memory yy");
    assert!(occurs_slice(&hay, &q, 3, 9));
    assert!(occurs_slice(&hay, &q, 3, 3));
    assert!(!occurs_slice(&hay, &q, 0, 2));
    let long = chars_of("agent memory across sessions and more");
    assert!(!occurs_slice(&hay, &long, 0, long.len()));
    assert!(occurs_slice(&hay, &hay, 0, hay.len()));
}

#[test]
fn join_strings_matches_slice_join() {
    let parts = vec!["a".to_string(), "bc".to_string(), "".to_string(), "d".to_string()];
    assert_eq!(join_strings(&parts, " "), parts.join(" "));
    assert_eq!(join_strings(&parts, " "), "a bc  d");
    assert_eq!(join_strings(&Vec::new(), " "), "");
    assert_eq!(join_strings(&vec!["only".to_string()], ", "), "only");
}

#[test]
fn str_lt_is_the_order_of_str() {
    let words = ["", "a", "ab", "abc", "b", "B", "é", "z", "zz", "夜", "Ω", "ab\u{0}", "a b"];
    for x in words {
        for y in words {
            assert_eq!(str_lt(x, y), x < y, "{:?} < {:?}", x, y);
        }
    }
    assert!(str_lt("apple", "banana"));
    assert!(!str_lt("banana", "apple"));
}

#[test]
fn flatten_replaces_every_slash() {
    assert_eq!(flatten("agent-memory/notes"), "agent-memory__notes");
    assert_eq!(flatten("a/b/c"), "a__b__c");
    assert_eq!(flatten("/"), "__");
    assert_eq!(flatten("plain"), "plain");
    assert_eq!(flatten("夜/鲲"), "夜__鲲");
}

#[test]
fn join_path_agrees_with_pathbuf_join() {
    let cases = [
        ("/home/u", "x"),
        ("/home/u/", "x"),
        ("", "x"),
        ("dir", "/abs"),
        ("dir", ""),
        ("a/b", "c/d.yaml"),
        ("/", "etc"),
    ];
    for (base, part) in cases {
        let expected = PathBuf::from(base).join(part);
        assert_eq!(join_path(base, part), expected.to_str().unwrap(), "{:?} + {:?}", base, part);
    }
    assert_eq!(join_path("/home/u", ".nightwhale"), "/home/u/.nightwhale");
    assert_eq!(join_path("dir", "/abs"), "/abs");
}
