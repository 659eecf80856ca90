use sword_utilfuns::utilstr;
use sword_utilfuns::{
    assure_valid_utf8, compare_casefold_bytes, stricmp, stristr, strip_ascii_whitespace_bytes,
    strnicmp, strstrip,
};

#[test]
fn strstrip_removes_unicode_whitespace() {
    assert_eq!(strstrip("\u{A0}\u{3000} x y \u{2029}"), "x y");
    assert_eq!(strstrip("\u{85}\x0c\x0b"), "");
    assert_eq!(strstrip(""), "");
    assert_eq!(strstrip("no-space"), "no-space");
    assert_eq!(strstrip(" \u{e9}t\u{e9} "), "\u{e9}t\u{e9}");
}

#[test]
fn utilstr_strstrip_removes_only_ascii_blanks() {
    assert_eq!(utilstr::strstrip(" \t\r\nabc\n\r\t "), "abc");
    assert_eq!(utilstr::strstrip("\x0cabc\x0c"), "\x0cabc\x0c");
    assert_eq!(utilstr::strstrip("\u{A0}abc"), "\u{A0}abc");
    assert_eq!(utilstr::strstrip("  \u{e9}  "), "\u{e9}");
    assert_eq!(utilstr::strstrip("\t\r\n"), "");
    assert_eq!(utilstr::strstrip(""), "");
}

#[test]
fn strip_is_idempotent_on_examples() {
    for s in ["  a b  ", "\t\n", "x", " \u{2003}y\u{2003} "] {
        assert_eq!(strstrip(strstrip(s)), strstrip(s));
        assert_eq!(utilstr::strstrip(utilstr::strstrip(s)), utilstr::strstrip(s));
    }
}

#[test]
fn trim_byte_helpers() {
    assert_eq!(utilstr::trim_ascii_whitespace(b"  hi \r\n"), b"hi");
    assert_eq!(utilstr::trim_ascii_whitespace(b"\x0chi\x0c"), b"\x0chi\x0c");
    assert_eq!(strip_ascii_whitespace_bytes(b"\x0c hi \x0c"), b"hi");
    assert_eq!(strip_ascii_whitespace_bytes(b" \t\n\x0c\r"), b"");
    assert_eq!(strip_ascii_whitespace_bytes(b""), b"");
}

#[test]
fn stristr_edge_cases() {
    assert_eq!(stristr("abc", ""), Some(0));
    assert_eq!(stristr("", ""), Some(0));
    assert_eq!(stristr("", "a"), None);
    assert_eq!(stristr("ab", "abc"), None);
    assert_eq!(stristr("aAaA", "AA"), Some(0));
    assert_eq!(stristr("xxABab", "ab"), Some(2));
    assert_eq!(stristr("h\u{e9}llo WORLD", "world"), Some(7));
    assert_eq!(stristr("\u{c9}", "\u{e9}"), None);
    assert_eq!(utilstr::stristr("Hello World", "lo w"), Some(3));
    assert_eq!(utilstr::stristr("Hello World", "xyz"), None);
    assert_eq!(utilstr::stristr_bytes(b"ab\x00CD", b"cd"), Some(3));
}

#[test]
fn search_ignores_case_on_examples() {
    assert_eq!(stristr("HELLO WORLD", "WORLD"), stristr("hello world", "world"));
    assert_eq!(stristr("Hello World", "wOrLd"), Some(6));
}

#[test]
fn comparison_values() {
    assert_eq!(stricmp("abc", "abd"), -1);
    assert_eq!(stricmp("abd", "ABC"), 1);
    assert_eq!(stricmp("abc", "ab"), 99);
    assert_eq!(stricmp("ab", "abc"), -99);
    assert_eq!(stricmp("", ""), 0);
    assert_eq!(stricmp("A[", "a{"), 91 - 123);
    assert_eq!(stricmp("a\0b", "A\0c"), 0);
    assert_eq!(strnicmp("abcdef", "ABCxyz", 3), 0);
    assert_eq!(strnicmp("abcdef", "ABCxyz", 4), i32::from(b'd') - i32::from(b'x'));
    assert_eq!(strnicmp("abc", "xyz", 0), 0);
    assert_eq!(strnicmp("abc", "xyz", -5), 0);
    assert_eq!(strnicmp("abc", "ABC", 100), 0);
    assert_eq!(strnicmp("ab", "abc", 2), 0);
    assert_eq!(strnicmp("ab", "abc", 3), -99);
}

#[test]
fn comparison_laws_on_examples() {
    let words = ["", "a", "A", "abc", "ABD", "ab", "Zeta", "zeta!", "\u{e9}"];
    for a in words {
        assert_eq!(stricmp(a, a), 0);
        for b in words {
            assert_eq!(stricmp(a, b), -stricmp(b, a));
            let longest = a.len().max(b.len()) as i32;
            assert_eq!(strnicmp(a, b, longest), stricmp(a, b));
            assert_eq!(strnicmp(a, b, longest + 7), stricmp(a, b));
            assert_eq!(
                stricmp(&a.to_ascii_lowercase(), &b.to_ascii_lowercase()),
                stricmp(a, b)
            );
        }
    }
}

#[test]
fn byte_comparison_helpers() {
    assert_eq!(compare_casefold_bytes(b"ABC", b"abd", 3), -1);
    assert_eq!(compare_casefold_bytes(b"ABC", b"abd", 2), 0);
    assert_eq!(compare_casefold_bytes(b"", b"", 10), 0);
    assert_eq!(utilstr::compare_ascii_case_insensitive_limited(b"x", b"X", 0), 0);
    assert_eq!(utilstr::compare_ascii_case_insensitive_limited(b"x", b"y", 1), -1);
    assert_eq!(utilstr::compare_ascii_case_insensitive_ascii(b"HeLLo", b"hello"), 0);
    assert_eq!(utilstr::compare_ascii_case_insensitive_ascii(b"b", b"A"), 1);
    assert_eq!(utilstr::strnicmp("AbC", "abd", 3), -1);
    assert_eq!(utilstr::stricmp("Luke", "LUKE"), 0);
}

#[test]
fn repair_keeps_valid_text_and_replaces_invalid_bytes() {
    assert_eq!(assure_valid_utf8(b"plain"), "plain");
    assert_eq!(assure_valid_utf8("\u{e9}t\u{e9}".as_bytes()), "\u{e9}t\u{e9}");
    assert_eq!(assure_valid_utf8(b""), "");
    assert_eq!(assure_valid_utf8(b"\xC3"), "\u{FFFD}");
    assert_eq!(assure_valid_utf8(b"a\x80b"), "a\u{FFFD}b");
    assert_eq!(utilstr::assure_valid_utf8(b"hi\xFFthere"), "hi\u{FFFD}there");
    assert_eq!(utilstr::assure_valid_utf8(b"ok"), "ok");
}

#[test]
fn found_offset_splits_between_characters() {
    let haystack = "\u{e9}\u{e9}caf\u{e9} CAF\u{c9}";
    let found = stristr(haystack, "caf\u{e9}").unwrap();
    assert_eq!(found, 4);
    assert!(haystack.is_char_boundary(found));
    assert_eq!(&haystack[found..found + 5], "caf\u{e9}");
}

#[test]
fn bounded_comparison_reads_only_the_bound() {
    assert_eq!(strnicmp("abcX", "ABCy", 3), strnicmp("abc", "abc", 3));
    assert_eq!(strnicmp("abcX", "ABCy", 3), 0);
    assert_eq!(strnicmp("abcX", "ABCy", 4), i32::from(b'x') - i32::from(b'y'));
}
