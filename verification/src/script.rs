//! The whole script: every line translated in order, and the echo directive
//! put in front where the script asks for echoing.

use crate::lines::{
    all_lines, is_line, join_lines, lemma_join_split, lemma_split_join, lemma_split_lines,
    spec_join_lines, spec_split_lines, split_lines, view_lines,
};
use crate::rules::{
    is_rewritten, lemma_translate_is_line, lemma_translate_leaves_no_reference, override_text,
    spec_classify, spec_translate, translate, OVERRIDE_MARKER,
};
use crate::text::{chars_of, occurs};
use crate::vars::has_no_reference;
use vstd::prelude::*;

verus! {

/// The batch directive that switches echoing on.
pub const ECHO_ON: &'static str = "@echo on";

/// `line` asks for echoing: it is `set -x`.
pub open spec fn asks_echo(line: Seq<char>) -> bool {
    spec_classify(line) is SetX
}

/// Some line of the script asks for echoing.
pub open spec fn echo_requested(lines: Seq<Seq<char>>) -> bool {
    exists|i: int| 0 <= i < lines.len() && asks_echo(#[trigger] lines[i])
}

/// The batch lines for the lines of a script, in order: one for each line
/// but those that ask for echoing, which yield none.
pub open spec fn spec_translate_lines(lines: Seq<Seq<char>>) -> Seq<Seq<char>> {
    lines.filter_map(|line: Seq<char>| spec_translate(line))
}

/// The translated lines, behind the echo directive and an empty line where
/// echoing is wanted.
pub open spec fn spec_assemble(echo: bool, body: Seq<Seq<char>>) -> Seq<Seq<char>> {
    if echo {
        seq![ECHO_ON@, Seq::empty()] + body
    } else {
        body
    }
}

/// The lines of the batch script for the lines of a shell script.
pub open spec fn spec_convert_lines(lines: Seq<Seq<char>>) -> Seq<Seq<char>> {
    spec_assemble(echo_requested(lines), spec_translate_lines(lines))
}

/// The batch script for a shell script: its lines, converted and joined
/// again.
pub open spec fn spec_convert(script: Seq<char>) -> Seq<char> {
    spec_join_lines(spec_convert_lines(spec_split_lines(script)))
}

/// Every line is blank or matched by no rule.
pub open spec fn passes_through(lines: Seq<Seq<char>>) -> bool {
    forall|i: int|
        0 <= i < lines.len() ==> spec_classify(#[trigger] lines[i]) is Blank || spec_classify(
            lines[i],
        ) is Other
}

/// The number of lines that ask for echoing.
pub open spec fn echo_count(lines: Seq<Seq<char>>) -> nat
    decreases lines.len(),
{
    if lines.len() == 0 {
        0
    } else {
        echo_count(lines.drop_last()) + if asks_echo(lines.last()) {
            1nat
        } else {
            0nat
        }
    }
}

/// The number of lines that the echo directive takes in front of the
/// translated lines: two where echoing is wanted, none where it is not.
pub open spec fn echo_block_len(lines: Seq<Seq<char>>) -> nat {
    if echo_requested(lines) {
        2
    } else {
        0
    }
}

/// The index in the batch script of the line that stands for line `i` of
/// the shell script: behind the echo block, at `i` less the number of echo
/// lines in front of it. Meaningful where line `i` does not ask for echoing.
pub open spec fn line_position(lines: Seq<Seq<char>>, i: int) -> int {
    echo_block_len(lines) + i - echo_count(lines.take(i))
}

/// Translating goes part by part.
pub proof fn lemma_translate_lines_add(a: Seq<Seq<char>>, b: Seq<Seq<char>>)
    ensures
        spec_translate_lines(a + b) == spec_translate_lines(a) + spec_translate_lines(b),
        echo_count(a + b) == echo_count(a) + echo_count(b),
        echo_requested(a + b) == (echo_requested(a) || echo_requested(b)),
    decreases b.len(),
{
    let all = a + b;
    if b.len() == 0 {
        assert(all =~= a);
        assert(spec_translate_lines(a) + spec_translate_lines(b) =~= spec_translate_lines(a));
    } else {
        assert(all.drop_last() =~= a + b.drop_last());
        assert(all.last() == b.last());
        lemma_translate_lines_add(a, b.drop_last());
        assert(spec_translate_lines(all) =~= spec_translate_lines(a) + spec_translate_lines(b));
    }
    if echo_requested(a) {
        let k = choose|k: int| 0 <= k < a.len() && asks_echo(#[trigger] a[k]);
        assert(asks_echo(all[k]));
    }
    if echo_requested(b) {
        let k = choose|k: int| 0 <= k < b.len() && asks_echo(#[trigger] b[k]);
        assert(asks_echo(all[a.len() + k]));
    }
    if echo_requested(all) {
        let k = choose|k: int| 0 <= k < all.len() && asks_echo(#[trigger] all[k]);
        if k < a.len() {
            assert(asks_echo(a[k]));
        } else {
            assert(asks_echo(b[k - a.len()]));
        }
    }
}

/// One line yields one batch line, or none where it asks for echoing.
pub proof fn lemma_translate_one_line(line: Seq<char>)
    ensures
        spec_translate_lines(seq![line]) == (if asks_echo(line) {
            Seq::<Seq<char>>::empty()
        } else {
            seq![spec_translate(line)->0]
        }),
        echo_count(seq![line]) == (if asks_echo(line) {
            1nat
        } else {
            0nat
        }),
        echo_requested(seq![line]) == asks_echo(line),
{
    let one = seq![line];
    assert(one.drop_last() =~= Seq::<Seq<char>>::empty());
    assert(one.last() == line);
    assert(spec_translate_lines(one.drop_last()) =~= Seq::<Seq<char>>::empty());
    assert(echo_count(one.drop_last()) == 0);
    if asks_echo(line) {
        assert(asks_echo(one[0]));
    } else {
        assert(spec_translate_lines(one) =~= seq![spec_translate(line)->0]);
    }
}

/// Every line that does not ask for echoing yields exactly one batch line;
/// every line that does yields none.
pub proof fn lemma_translate_lines_len(lines: Seq<Seq<char>>)
    ensures
        echo_count(lines) <= lines.len(),
        spec_translate_lines(lines).len() == lines.len() - echo_count(lines),
        echo_requested(lines) <==> echo_count(lines) > 0,
    decreases lines.len(),
{
    if lines.len() > 0 {
        let front = lines.drop_last();
        lemma_translate_lines_len(front);
        assert(lines =~= front + seq![lines.last()]);
        lemma_translate_lines_add(front, seq![lines.last()]);
        lemma_translate_one_line(lines.last());
    }
}

/// The batch script has one line for each line of the shell script that
/// does not ask for echoing, and two more in front where any line does.
pub proof fn lemma_line_count(lines: Seq<Seq<char>>)
    ensures
        spec_convert_lines(lines).len() == lines.len() - echo_count(lines) + echo_block_len(
            lines,
        ),
        echo_count(lines) == 0 ==> spec_convert_lines(lines).len() == lines.len(),
        echo_count(lines) == 1 ==> spec_convert_lines(lines).len() == lines.len() + 1,
{
    lemma_translate_lines_len(lines);
}

/// Where a line that does not ask for echoing ends up: behind the echo
/// block, at its own index less the number of echo lines in front of it.
/// There stands its translation. So the batch lines keep the order of the
/// shell lines.
pub proof fn lemma_line_position(lines: Seq<Seq<char>>, i: int)
    requires
        0 <= i < lines.len(),
        !asks_echo(lines[i]),
    ensures
        0 <= line_position(lines, i) < spec_convert_lines(lines).len(),
        Some(spec_convert_lines(lines)[line_position(lines, i)]) == spec_translate(lines[i]),
{
    let front = lines.take(i);
    let one = seq![lines[i]];
    let back = lines.skip(i + 1);
    assert(lines =~= front + one + back);
    lemma_translate_lines_add(front + one, back);
    lemma_translate_lines_add(front, one);
    lemma_translate_one_line(lines[i]);
    lemma_translate_lines_len(front);
}

/// A line with the override marker shows in the batch script as what its
/// marker dictates, whatever else the line and the script hold.
pub proof fn lemma_override_in_script(lines: Seq<Seq<char>>, i: int)
    requires
        0 <= i < lines.len(),
        occurs(lines[i], OVERRIDE_MARKER@),
    ensures
        0 <= line_position(lines, i) < spec_convert_lines(lines).len(),
        spec_convert_lines(lines)[line_position(lines, i)] == override_text(lines[i]),
{
    lemma_line_position(lines, i);
}

/// A comment or a recognised command shows in the batch script as a line in
/// which no variable reference is left.
pub proof fn lemma_references_in_script(lines: Seq<Seq<char>>, i: int)
    requires
        0 <= i < lines.len(),
        is_rewritten(spec_classify(lines[i])),
    ensures
        0 <= line_position(lines, i) < spec_convert_lines(lines).len(),
        has_no_reference(spec_convert_lines(lines)[line_position(lines, i)]),
{
    lemma_line_position(lines, i);
    lemma_translate_leaves_no_reference(lines[i]);
}

/// In a script without `set -x` the batch script answers the shell script
/// line for line.
pub proof fn lemma_line_for_line(lines: Seq<Seq<char>>, i: int)
    requires
        !echo_requested(lines),
        0 <= i < lines.len(),
    ensures
        spec_convert_lines(lines).len() == lines.len(),
        Some(spec_convert_lines(lines)[i]) == spec_translate(lines[i]),
{
    assert(!asks_echo(lines[i]));
    lemma_line_position(lines, i);
    lemma_translate_lines_len(lines);
    lemma_translate_lines_len(lines.take(i));
    lemma_translate_lines_add(lines.take(i), lines.skip(i));
    assert(lines.take(i) + lines.skip(i) =~= lines);
}

/// A script of blank lines and of lines that no rule matches comes out as
/// it went in.
pub proof fn lemma_pass_through_lines(lines: Seq<Seq<char>>)
    requires
        passes_through(lines),
    ensures
        spec_convert_lines(lines) == lines,
{
    let out = spec_convert_lines(lines);
    if lines.len() > 0 {
        lemma_line_for_line(lines, 0);
    }
    assert forall|i: int| 0 <= i < lines.len() implies out[i] == lines[i] by {
        lemma_line_for_line(lines, i);
    }
    assert(out =~= lines);
}

/// One more `set -x` changes nothing but that echoing is wanted: the line
/// itself yields no batch line, wherever it is put, and the echo block
/// stands once in front however many lines ask for it.
pub proof fn lemma_echo_line_adds_nothing(lines: Seq<Seq<char>>, at: int, line: Seq<char>)
    requires
        0 <= at <= lines.len(),
        asks_echo(line),
    ensures
        spec_translate_lines(lines.insert(at, line)) == spec_translate_lines(lines),
        spec_convert_lines(lines.insert(at, line)) == seq![ECHO_ON@, Seq::empty()]
            + spec_translate_lines(lines),
        echo_requested(lines) ==> spec_convert_lines(lines.insert(at, line)) == spec_convert_lines(
            lines,
        ),
{
    let front = lines.take(at);
    let back = lines.skip(at);
    let one = seq![line];
    assert(lines.insert(at, line) =~= front + one + back);
    assert(lines =~= front + back);
    lemma_translate_lines_add(front + one, back);
    lemma_translate_lines_add(front, one);
    lemma_translate_lines_add(front, back);
    lemma_translate_one_line(line);
    assert(spec_translate_lines(front) + Seq::<Seq<char>>::empty() =~= spec_translate_lines(
        front,
    ));
}

/// Translating lines without line feeds gives lines without line feeds.
pub proof fn lemma_convert_lines_are_lines(lines: Seq<Seq<char>>)
    requires
        lines.len() >= 1,
        all_lines(lines),
    ensures
        spec_convert_lines(lines).len() >= 1,
        all_lines(spec_translate_lines(lines)),
        all_lines(spec_convert_lines(lines)),
    decreases lines.len(),
{
    lemma_translate_lines_len(lines);
    let front = lines.drop_last();
    let last = lines.last();
    let body = spec_translate_lines(lines);
    assert(is_line(last));
    if front.len() > 0 {
        assert forall|i: int| 0 <= i < front.len() implies is_line(#[trigger] front[i]) by {
            assert(front[i] == lines[i]);
        }
        lemma_convert_lines_are_lines(front);
    }
    assert forall|i: int| 0 <= i < body.len() implies is_line(#[trigger] body[i]) by {
        if i < spec_translate_lines(front).len() {
            assert(body[i] == spec_translate_lines(front)[i]);
        } else {
            lemma_translate_is_line(last);
        }
    }
    reveal_strlit("@echo on");
    let out = spec_convert_lines(lines);
    assert forall|i: int| 0 <= i < out.len() implies is_line(#[trigger] out[i]) by {
        if echo_requested(lines) && i >= 2 {
            assert(out[i] == body[i - 2]);
        }
    }
}

/// The lines of the batch script are the converted lines of the shell
/// script: joining them into one text loses nothing.
pub proof fn lemma_convert_line_by_line(script: Seq<char>)
    ensures
        spec_split_lines(spec_convert(script)) == spec_convert_lines(spec_split_lines(script)),
{
    let lines = spec_split_lines(script);
    lemma_split_lines(script);
    lemma_convert_lines_are_lines(lines);
    lemma_split_join(spec_convert_lines(lines));
}

/// A script of blank lines and of lines that no rule matches is converted
/// into itself.
pub proof fn lemma_pass_through(script: Seq<char>)
    requires
        passes_through(spec_split_lines(script)),
    ensures
        spec_convert(script) == script,
{
    lemma_pass_through_lines(spec_split_lines(script));
    lemma_join_split(script);
}

/// The batch script has as many lines as the shell script, less those that
/// ask for echoing, and two more where any does: one more than the shell
/// script where exactly one line is `set -x`, and as many where none is.
pub proof fn lemma_text_line_count(script: Seq<char>)
    ensures
        spec_split_lines(spec_convert(script)).len() == spec_split_lines(script).len()
            - echo_count(spec_split_lines(script)) + echo_block_len(spec_split_lines(script)),
        echo_count(spec_split_lines(script)) == 0 ==> spec_split_lines(
            spec_convert(script),
        ).len() == spec_split_lines(script).len(),
        echo_count(spec_split_lines(script)) == 1 ==> spec_split_lines(
            spec_convert(script),
        ).len() == spec_split_lines(script).len() + 1,
{
    lemma_convert_line_by_line(script);
    lemma_line_count(spec_split_lines(script));
}

/// Translates every line, and tells whether any of them asks for echoing.
pub fn translate_lines(lines: &Vec<Vec<char>>) -> (out: (Vec<Vec<char>>, bool))
    ensures
        view_lines(out.0@) == spec_translate_lines(view_lines(lines@)),
        out.1 == echo_requested(view_lines(lines@)),
{
    let ghost all = view_lines(lines@);
    let ghost rule = |line: Seq<char>| spec_translate(line);
    let mut body: Vec<Vec<char>> = Vec::new();
    let mut echo = false;
    let mut i: usize = 0;
    assert(view_lines(body@) =~= all.take(0).filter_map(rule));
    while i < lines.len()
        invariant
            i <= lines.len(),
            all == view_lines(lines@),
            rule == |line: Seq<char>| spec_translate(line),
            view_lines(body@) == all.take(i as int).filter_map(rule),
            echo == echo_requested(all.take(i as int)),
        decreases lines.len() - i,
    {
        let ghost upto = all.take(i as int);
        let ghost next = all.take(i + 1);
        proof {
            assert(next.drop_last() =~= upto);
            assert(next.last() == lines@[i as int]@);
            if echo_requested(upto) {
                let k = choose|k: int| 0 <= k < upto.len() && asks_echo(#[trigger] upto[k]);
                assert(asks_echo(next[k]));
            }
            if echo_requested(next) && !asks_echo(next.last()) {
                let k = choose|k: int| 0 <= k < next.len() && asks_echo(#[trigger] next[k]);
                assert(asks_echo(upto[k]));
            }
        }
        match translate(lines[i].as_slice()) {
            Some(batch) => {
                assert(view_lines(body@.push(batch)) =~= view_lines(body@) + seq![batch@]);
                body.push(batch);
            },
            None => {
                assert(asks_echo(next[i as int]));
                echo = true;
            },
        }
        i += 1;
    }
    assert(all.take(lines@.len() as int) =~= all);
    (body, echo)
}

/// Puts the echo directive and an empty line in front of the translated
/// lines where echoing is wanted.
pub fn assemble(echo: bool, body: Vec<Vec<char>>) -> (out: Vec<Vec<char>>)
    ensures
        view_lines(out@) == spec_assemble(echo, view_lines(body@)),
{
    if echo {
        let mut body = body;
        let ghost lines = view_lines(body@);
        let mut out: Vec<Vec<char>> = Vec::new();
        out.push(chars_of(ECHO_ON));
        out.push(Vec::new());
        out.append(&mut body);
        assert(view_lines(out@) =~= seq![ECHO_ON@, Seq::empty()] + lines);
        out
    } else {
        body
    }
}

/// Converts the lines of a shell script into the lines of a batch script.
///
/// The batch script has one line for each line that is not `set -x`, in the
/// same order, behind the two lines of the echo block where any line is
/// `set -x`. A script of blank lines and of lines that no rule matches comes
/// back unchanged.
pub fn convert_lines(lines: &Vec<Vec<char>>) -> (out: Vec<Vec<char>>)
    ensures
        view_lines(out@) == spec_convert_lines(view_lines(lines@)),
        out.len() == lines.len() - echo_count(view_lines(lines@)) + echo_block_len(
            view_lines(lines@),
        ),
        passes_through(view_lines(lines@)) ==> view_lines(out@) == view_lines(lines@),
{
    proof {
        lemma_line_count(view_lines(lines@));
        if passes_through(view_lines(lines@)) {
            lemma_pass_through_lines(view_lines(lines@));
        }
    }
    let (body, echo) = translate_lines(lines);
    assemble(echo, body)
}

/// Converts a shell script, given as characters, into a batch script.
///
/// The lines of the result are the converted lines of the script. A script
/// of blank lines and of lines that no rule matches comes back unchanged.
pub fn convert_chars(script: &[char]) -> (out: Vec<char>)
    ensures
        out@ == spec_convert(script@),
        spec_split_lines(out@) == spec_convert_lines(spec_split_lines(script@)),
        spec_split_lines(out@).len() == spec_split_lines(script@).len() - echo_count(
            spec_split_lines(script@),
        ) + echo_block_len(spec_split_lines(script@)),
        passes_through(spec_split_lines(script@)) ==> out@ == script@,
{
    proof {
        lemma_convert_line_by_line(script@);
        lemma_text_line_count(script@);
        if passes_through(spec_split_lines(script@)) {
            lemma_pass_through(script@);
        }
    }
    let lines = split_lines(script);
    let batch = convert_lines(&lines);
    join_lines(&batch)
}

} // verus!
