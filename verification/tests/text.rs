use shell2batch::text::{
    chars_of, equals_text, find_text, is_space, match_text, push_chars, push_text, string_of, trim,
};

#[test]
fn space_characters() {
    for c in [' ', '\t', '\n', '\r', '\x0b', '\x0c'] {
        assert!(is_space(c));
    }
    for c in ['a', '#', '$', '-', '\u{a0}', '0'] {
        assert!(!is_space(c));
    }
}

#[test]
fn trim_removes_whitespace_at_both_ends() {
    let s = chars_of("  \t a b \r");
    assert_eq!(string_of(trim(&s)), "a b");
}

#[test]
fn trim_keeps_inner_whitespace() {
    let s = chars_of("a \t b");
    assert_eq!(string_of(trim(&s)), "a \t b");
}

#[test]
fn trim_of_blank_is_empty() {
    assert_eq!(string_of(trim(&chars_of(" \t\r "))), "");
    assert_eq!(string_of(trim(&chars_of(""))), "");
}

#[test]
fn match_text_tells_where_the_text_ends() {
    let s = chars_of("abc");
    assert_eq!(match_text(&s, 1, "bc"), Some(3));
    assert_eq!(match_text(&s, 0, "abc"), Some(3));
    assert_eq!(match_text(&s, 0, "ab"), Some(2));
    assert_eq!(match_text(&s, 1, "bd"), None);
    assert_eq!(match_text(&s, 1, "bcd"), None);
    assert_eq!(match_text(&s, 2, "bc"), None);
}

#[test]
fn match_text_with_empty_text_and_at_the_borders() {
    let s = chars_of("abc");
    assert_eq!(match_text(&s, 0, ""), Some(0));
    assert_eq!(match_text(&s, 3, ""), Some(3));
    assert_eq!(match_text(&s, 4, ""), None);
    assert_eq!(match_text(&s, 3, "a"), None);
    assert_eq!(match_text(&s, 100, "a"), None);
}

#[test]
fn equals_text_compares_the_whole() {
    assert!(equals_text(&chars_of("export"), "export"));
    assert!(!equals_text(&chars_of("exports"), "export"));
    assert!(!equals_text(&chars_of("expor"), "export"));
    assert!(!equals_text(&chars_of("Export"), "export"));
    assert!(equals_text(&chars_of(""), ""));
    assert!(!equals_text(&chars_of(""), "a"));
}

#[test]
fn find_text_returns_the_leftmost_occurrence() {
    let s = chars_of("abcabc");
    assert_eq!(find_text(&s, "bc"), Some((1, 3)));
    assert_eq!(find_text(&s, "abc"), Some((0, 3)));
    assert_eq!(find_text(&s, "ca"), Some((2, 4)));
    assert_eq!(find_text(&s, "c"), Some((2, 3)));
}

#[test]
fn find_text_at_the_very_end() {
    let s = chars_of("xxab");
    assert_eq!(find_text(&s, "ab"), Some((2, 4)));
    assert_eq!(find_text(&s, "b"), Some((3, 4)));
}

#[test]
fn find_text_that_is_absent() {
    let s = chars_of("abcabc");
    assert_eq!(find_text(&s, "cb"), None);
    assert_eq!(find_text(&s, "abcabca"), None);
    assert_eq!(find_text(&chars_of(""), "a"), None);
}

#[test]
fn find_text_with_empty_text() {
    assert_eq!(find_text(&chars_of("abc"), ""), Some((0, 0)));
    assert_eq!(find_text(&chars_of(""), ""), Some((0, 0)));
}

#[test]
fn chars_and_string_round_trip() {
    let text = "h\u{e9}llo \u{2713} $A\n";
    let chars = chars_of(text);
    assert_eq!(chars.len(), 11);
    assert_eq!(chars[1], '\u{e9}');
    assert_eq!(string_of(&chars), text);
}

#[test]
fn string_of_builds_every_character() {
    assert_eq!(string_of(&['a', 'b', 'c']), "abc");
    assert_eq!(string_of(&[]), "");
}

#[test]
fn push_text_and_push_chars_append() {
    let mut out = vec!['x'];
    push_text(&mut out, "ab");
    push_chars(&mut out, &['c', 'd']);
    push_text(&mut out, "");
    assert_eq!(out, vec!['x', 'a', 'b', 'c', 'd']);
}
