use sword_utilfuns::{assure_valid_utf8, stricmp, stristr, strnicmp, strstrip};

#[test]
fn lib_trims_whitespace() {
    assert_eq!(strstrip("  hello world \n"), "hello world");
}

#[test]
fn lib_ignores_case_when_searching() {
    assert_eq!(stristr("Hello World", "world"), Some(6));
}

#[test]
fn lib_compares_case_insensitive_prefix() {
    assert_eq!(strnicmp("AbC", "abc", 3), 0);
    assert!(strnicmp("AbC", "abd", 3) < 0);
}

#[test]
fn lib_compares_case_insensitive_strings() {
    assert_eq!(stricmp("Luke", "luke"), 0);
    assert!(stricmp("A", "b") < 0);
}

#[test]
fn lib_repairs_invalid_utf8() {
    let repaired = assure_valid_utf8(b"hi\xFFthere");
    assert_eq!(repaired, "hi\u{FFFD}there");
}
