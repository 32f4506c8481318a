//! A text as a sequence of lines: splitting at line feeds and joining with
//! them, and the proof that each undoes the other.

use crate::text::push_chars;
use vstd::prelude::*;

verus! {

/// The number of characters in front of the first line feed of `text`, or the
/// length of `text` where it holds none.
pub open spec fn first_line_len(text: Seq<char>) -> nat
    decreases text.len(),
{
    if text.len() == 0 || text[0] == '\n' {
        0
    } else {
        1 + first_line_len(text.skip(1))
    }
}

/// `line` holds no line feed.
pub open spec fn is_line(line: Seq<char>) -> bool {
    forall|i: int| 0 <= i < line.len() ==> #[trigger] line[i] != '\n'
}

/// Every member of `lines` holds no line feed.
pub open spec fn all_lines(lines: Seq<Seq<char>>) -> bool {
    forall|i: int| 0 <= i < lines.len() ==> is_line(#[trigger] lines[i])
}

/// The lines of `text`: the stretches between its line feeds, in order. A
/// text with `n` line feeds has `n + 1` lines, some of which may be empty.
pub open spec fn spec_split_lines(text: Seq<char>) -> Seq<Seq<char>>
    decreases text.len(),
{
    let n = first_line_len(text) as int;
    if n >= text.len() {
        seq![text]
    } else {
        seq![text.take(n)] + spec_split_lines(text.skip(n + 1))
    }
}

/// The lines with one line feed between each two neighbours.
pub open spec fn spec_join_lines(lines: Seq<Seq<char>>) -> Seq<char>
    decreases lines.len(),
{
    if lines.len() == 0 {
        Seq::empty()
    } else if lines.len() == 1 {
        lines[0]
    } else {
        spec_join_lines(lines.drop_last()) + seq!['\n'] + lines.last()
    }
}

/// What a vector of lines stands for.
pub open spec fn view_lines(lines: Seq<Vec<char>>) -> Seq<Seq<char>> {
    lines.map_values(|line: Vec<char>| line@)
}

/// `first_line_len` is the index of the first line feed, or the length.
pub proof fn lemma_first_line_len(text: Seq<char>)
    ensures
        first_line_len(text) <= text.len(),
        is_line(text.take(first_line_len(text) as int)),
        first_line_len(text) < text.len() ==> text[first_line_len(text) as int] == '\n',
    decreases text.len(),
{
    if text.len() == 0 || text[0] == '\n' {
    } else {
        let rest = text.skip(1);
        lemma_first_line_len(rest);
        let n = first_line_len(rest) as int;
        assert forall|i: int| 0 <= i < n + 1 implies #[trigger] text.take(n + 1)[i] != '\n' by {
            if i > 0 {
                assert(rest.take(n)[i - 1] == text[i]);
            }
        }
    }
}

/// An index with no line feed in front of it, which is the end of the text
/// or holds a line feed, is `first_line_len`.
pub proof fn lemma_first_line_len_is(text: Seq<char>, n: int)
    requires
        0 <= n <= text.len(),
        is_line(text.take(n)),
        n < text.len() ==> text[n] == '\n',
    ensures
        first_line_len(text) == n,
{
    lemma_first_line_len(text);
    let m = first_line_len(text) as int;
    if m < n {
        assert(text.take(n)[m] == '\n');
    }
    if n < m {
        assert(text.take(m)[n] == '\n');
    }
}

/// A text has at least one line, and none of its lines holds a line feed.
pub proof fn lemma_split_lines(text: Seq<char>)
    ensures
        spec_split_lines(text).len() >= 1,
        all_lines(spec_split_lines(text)),
    decreases text.len(),
{
    lemma_first_line_len(text);
    let n = first_line_len(text) as int;
    if n >= text.len() {
        assert(text.take(n) =~= text);
    } else {
        lemma_split_lines(text.skip(n + 1));
    }
}

/// Joining with a line in front: the line, a line feed, and the rest joined.
pub proof fn lemma_join_front(head: Seq<char>, rest: Seq<Seq<char>>)
    requires
        rest.len() >= 1,
    ensures
        spec_join_lines(seq![head] + rest) == head + seq!['\n'] + spec_join_lines(rest),
    decreases rest.len(),
{
    let all = seq![head] + rest;
    if rest.len() == 1 {
        assert(all.drop_last() =~= seq![head]);
        assert(spec_join_lines(seq![head]) == head);
    } else {
        assert(all.drop_last() =~= seq![head] + rest.drop_last());
        lemma_join_front(head, rest.drop_last());
        assert(spec_join_lines(all) =~= head + seq!['\n'] + spec_join_lines(rest));
    }
}

/// Joining the lines of a text gives the text back.
pub proof fn lemma_join_split(text: Seq<char>)
    ensures
        spec_join_lines(spec_split_lines(text)) == text,
    decreases text.len(),
{
    lemma_first_line_len(text);
    let n = first_line_len(text) as int;
    if n >= text.len() {
    } else {
        let rest = text.skip(n + 1);
        lemma_join_split(rest);
        lemma_split_lines(rest);
        lemma_join_front(text.take(n), spec_split_lines(rest));
        assert(text.take(n) + seq!['\n'] + rest =~= text);
    }
}

/// Splitting what was joined from lines without line feeds gives the lines
/// back.
pub proof fn lemma_split_join(lines: Seq<Seq<char>>)
    requires
        lines.len() >= 1,
        all_lines(lines),
    ensures
        spec_split_lines(spec_join_lines(lines)) == lines,
    decreases lines.len(),
{
    let head = lines[0];
    assert(is_line(head));
    if lines.len() == 1 {
        assert(head.take(head.len() as int) =~= head);
        lemma_first_line_len_is(head, head.len() as int);
        assert(lines =~= seq![head]);
    } else {
        let rest = lines.skip(1);
        assert(lines =~= seq![head] + rest);
        lemma_join_front(head, rest);
        let joined = spec_join_lines(lines);
        let n = head.len() as int;
        assert(joined.take(n) =~= head);
        assert(joined[n] == '\n');
        lemma_first_line_len_is(joined, n);
        assert(joined.skip(n + 1) =~= spec_join_lines(rest));
        assert forall|i: int| 0 <= i < rest.len() implies is_line(#[trigger] rest[i]) by {
            assert(rest[i] == lines[i + 1]);
        }
        lemma_split_join(rest);
    }
}

/// Splits `text` at its line feeds.
pub fn split_lines(text: &[char]) -> (lines: Vec<Vec<char>>)
    ensures
        view_lines(lines@) == spec_split_lines(text@),
{
    let mut lines: Vec<Vec<char>> = Vec::new();
    let mut line: Vec<char> = Vec::new();
    let mut start: usize = 0;
    let mut i: usize = 0;
    assert(text@.skip(0) =~= text@);
    assert(view_lines(lines@) =~= Seq::empty());
    while i < text.len()
        invariant
            start <= i <= text.len(),
            line@ == text@.subrange(start as int, i as int),
            is_line(line@),
            view_lines(lines@) + spec_split_lines(text@.skip(start as int)) == spec_split_lines(
                text@,
            ),
        decreases text.len() - i,
    {
        let c = text[i];
        let ghost tail = text@.skip(start as int);
        if c == '\n' {
            proof {
                assert(tail.take(i - start) =~= line@);
                lemma_first_line_len_is(tail, i - start);
                assert(tail.skip(i - start + 1) =~= text@.skip(i + 1));
                assert(view_lines(lines@.push(line)) =~= view_lines(lines@) + seq![line@]);
                assert(view_lines(lines@) + (seq![line@] + spec_split_lines(text@.skip(i + 1)))
                    =~= view_lines(lines@) + seq![line@] + spec_split_lines(text@.skip(i + 1)));
            }
            lines.push(line);
            line = Vec::new();
            start = i + 1;
            assert(line@ =~= text@.subrange(start as int, i + 1));
        } else {
            assert(text@.subrange(start as int, i + 1) =~= line@.push(c));
            line.push(c);
        }
        i += 1;
    }
    proof {
        let tail = text@.skip(start as int);
        assert(tail =~= line@);
        assert(tail.take(tail.len() as int) =~= tail);
        lemma_first_line_len_is(tail, tail.len() as int);
        assert(view_lines(lines@.push(line)) =~= view_lines(lines@) + seq![line@]);
    }
    lines.push(line);
    lines
}

/// Joins `lines` with one line feed between each two neighbours.
pub fn join_lines(lines: &Vec<Vec<char>>) -> (text: Vec<char>)
    ensures
        text@ == spec_join_lines(view_lines(lines@)),
{
    let mut text: Vec<char> = Vec::new();
    let mut i: usize = 0;
    assert(view_lines(lines@).take(0) =~= Seq::empty());
    while i < lines.len()
        invariant
            i <= lines.len(),
            text@ == spec_join_lines(view_lines(lines@).take(i as int)),
        decreases lines.len() - i,
    {
        proof {
            let upto = view_lines(lines@).take(i + 1);
            assert(upto.drop_last() =~= view_lines(lines@).take(i as int));
            assert(upto.last() == lines@[i as int]@);
        }
        if i > 0 {
            text.push('\n');
        }
        push_chars(&mut text, lines[i].as_slice());
        assert(text@ =~= spec_join_lines(view_lines(lines@).take(i + 1)));
        i += 1;
    }
    assert(view_lines(lines@).take(lines@.len() as int) =~= view_lines(lines@));
    text
}

} // verus!
