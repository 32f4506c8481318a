use shell2batch::text::{chars_of, string_of};
use shell2batch::vars::{is_name_char, is_name_start, rewrite_vars, scan_name, scan_reference};

fn rewritten(text: &str) -> String {
    string_of(&rewrite_vars(&chars_of(text)))
}

#[test]
fn name_characters() {
    for c in ['a', 'z', 'A', 'Z', '_', 'm'] {
        assert!(is_name_start(c));
        assert!(is_name_char(c));
    }
    for c in ['0', '9', '5'] {
        assert!(!is_name_start(c));
        assert!(is_name_char(c));
    }
    for c in ['$', '{', '}', '-', ' ', '%', '/', '\u{e9}', '`', '[', '@', ':'] {
        assert!(!is_name_start(c));
        assert!(!is_name_char(c));
    }
}

#[test]
fn scan_name_measures_the_name_at_the_head() {
    assert_eq!(scan_name(&chars_of("abc")), 3);
    assert_eq!(scan_name(&chars_of("a1_b-c")), 4);
    assert_eq!(scan_name(&chars_of("_")), 1);
    assert_eq!(scan_name(&chars_of("1abc")), 0);
    assert_eq!(scan_name(&chars_of("")), 0);
    assert_eq!(scan_name(&chars_of(" a")), 0);
}

#[test]
fn scan_reference_finds_both_forms() {
    let bare = chars_of("$HOME/bin");
    assert_eq!(scan_reference(&bare), Some((&bare[1..5], 5)));
    let braced = chars_of("${HOME}bin");
    assert_eq!(scan_reference(&braced), Some((&braced[2..6], 7)));
    let short = chars_of("$a");
    assert_eq!(scan_reference(&short), Some((&short[1..2], 2)));
}

#[test]
fn scan_reference_rejects_what_is_malformed() {
    for text in ["", "$", "a$B", "$1", "$ A", "${", "${}", "${A", "${A-}", "${1}", "$$A", "${ A}"] {
        assert_eq!(scan_reference(&chars_of(text)), None, "{:?}", text);
    }
}

#[test]
fn bare_reference_is_rewritten() {
    assert_eq!(rewritten("$A"), "%A%");
    assert_eq!(rewritten("$DIR2"), "%DIR2%");
    assert_eq!(rewritten("$_x9"), "%_x9%");
}

#[test]
fn braced_reference_is_rewritten() {
    assert_eq!(rewritten("${A}"), "%A%");
    assert_eq!(rewritten("${MY_DIR}"), "%MY_DIR%");
}

#[test]
fn name_is_the_longest_run() {
    assert_eq!(rewritten("$Ab"), "%Ab%");
    assert_eq!(rewritten("${A}b"), "%A%b");
    assert_eq!(rewritten("$A-b"), "%A%-b");
    assert_eq!(rewritten("$A.txt"), "%A%.txt");
    assert_eq!(rewritten("$A1/$B2"), "%A1%/%B2%");
}

#[test]
fn references_side_by_side() {
    assert_eq!(rewritten("$A$B"), "%A%%B%");
    assert_eq!(rewritten("${A}${B}"), "%A%%B%");
    assert_eq!(rewritten("${A}$B ${C}"), "%A%%B% %C%");
}

#[test]
fn other_text_is_copied() {
    assert_eq!(rewritten(""), "");
    assert_eq!(rewritten("plain text, 100%"), "plain text, 100%");
    assert_eq!(rewritten("a $HOME/bin b"), "a %HOME%/bin b");
    assert_eq!(rewritten("h\u{e9} $X \u{2713}"), "h\u{e9} %X% \u{2713}");
}

#[test]
fn malformed_references_stay() {
    assert_eq!(rewritten("$"), "$");
    assert_eq!(rewritten("a$"), "a$");
    assert_eq!(rewritten("$1"), "$1");
    assert_eq!(rewritten("$ A"), "$ A");
    assert_eq!(rewritten("${"), "${");
    assert_eq!(rewritten("${}"), "${}");
    assert_eq!(rewritten("${A"), "${A");
    assert_eq!(rewritten("${A b}"), "${A b}");
    assert_eq!(rewritten("${1A}"), "${1A}");
    assert_eq!(rewritten("$\u{e9}"), "$\u{e9}");
    assert_eq!(rewritten("$(pwd)"), "$(pwd)");
}

#[test]
fn reference_behind_a_stray_sigil() {
    assert_eq!(rewritten("$$A"), "$%A%");
    assert_eq!(rewritten("${A$B}"), "${A%B%}");
    assert_eq!(rewritten("${$A}"), "${%A%}");
    assert_eq!(rewritten("$${A}"), "$%A%");
}

#[test]
fn rewriting_twice_is_rewriting_once() {
    for text in ["$A", "${A}b $C", "$$A", "${A$B}", "x$", "%A% $B", "${A", "no refs"] {
        let once = rewritten(text);
        assert_eq!(rewritten(&once), once, "{:?}", text);
    }
}

#[test]
fn no_reference_is_left() {
    for text in ["$A", "${A}b $C", "$$A", "${A$B}", "${${A}}", "$A$B$", "a ${B_1}/$c.d"] {
        let out = chars_of(&rewritten(text));
        for at in 0..=out.len() {
            assert_eq!(scan_reference(&out[at..]), None, "{:?} at {}", text, at);
        }
    }
}

#[test]
fn percent_form_stands_where_the_reference_stood() {
    let text = chars_of("cp ${SRC}/a $DST");
    let at = 3;
    let (name, len) = scan_reference(&text[at..]).unwrap();
    let mut expected = rewrite_vars(&text[..at]);
    expected.push('%');
    expected.extend_from_slice(name);
    expected.push('%');
    expected.extend(rewrite_vars(&text[at + len..]));
    assert_eq!(rewrite_vars(&text), expected);
    assert_eq!(string_of(&expected), "cp %SRC%/a %DST%");
}
