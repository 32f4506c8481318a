use shell2batch::lines::{join_lines, split_lines};
use shell2batch::text::{chars_of, string_of};

fn lines_of(text: &str) -> Vec<String> {
    split_lines(&chars_of(text)).iter().map(|line| string_of(line)).collect()
}

fn joined(lines: &[&str]) -> String {
    let lines: Vec<Vec<char>> = lines.iter().map(|line| chars_of(line)).collect();
    string_of(&join_lines(&lines))
}

#[test]
fn empty_text_has_one_empty_line() {
    assert_eq!(lines_of(""), vec![""]);
}

#[test]
fn text_without_line_feed_is_one_line() {
    assert_eq!(lines_of("abc def"), vec!["abc def"]);
}

#[test]
fn split_at_every_line_feed() {
    assert_eq!(lines_of("a\nb"), vec!["a", "b"]);
    assert_eq!(lines_of("a\n\nb"), vec!["a", "", "b"]);
    assert_eq!(lines_of("a\n"), vec!["a", ""]);
    assert_eq!(lines_of("\na"), vec!["", "a"]);
    assert_eq!(lines_of("\n\n"), vec!["", "", ""]);
}

#[test]
fn split_keeps_carriage_returns_and_blanks() {
    assert_eq!(lines_of("a\r\n  b  \n\t"), vec!["a\r", "  b  ", "\t"]);
}

#[test]
fn join_puts_a_line_feed_between_neighbours() {
    assert_eq!(joined(&[]), "");
    assert_eq!(joined(&["a"]), "a");
    assert_eq!(joined(&["a", "b"]), "a\nb");
    assert_eq!(joined(&["a", "", "b", ""]), "a\n\nb\n");
    assert_eq!(joined(&["", ""]), "\n");
}

#[test]
fn join_undoes_split() {
    for text in ["", "\n", "a", "a\nb\n", "\n\nx\n\n", "  set -x  \n#c\r\n"] {
        let lines = split_lines(&chars_of(text));
        assert_eq!(string_of(&join_lines(&lines)), text);
    }
}

#[test]
fn split_undoes_join() {
    let lines = vec![chars_of("one"), chars_of(""), chars_of(" two "), chars_of("")];
    assert_eq!(split_lines(&join_lines(&lines)), lines);
}

#[test]
fn line_count_is_one_more_than_line_feeds() {
    let text = "a\nb\n\nc\n";
    let feeds = text.chars().filter(|c| *c == '\n').count();
    assert_eq!(split_lines(&chars_of(text)).len(), feeds + 1);
}
