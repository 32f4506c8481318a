//! The rule table: what a line of shell is recognised as, and the line of
//! batch that stands for it.
//!
//! A line is read in a fixed order. One that carries the override marker
//! yields what the marker dictates. Otherwise a blank line stays as it is, a
//! comment becomes a remark, and a line whose first word is a known command
//! in a known form is rewritten:
//!
//! | shell               | batch                   |
//! |---------------------|-------------------------|
//! | `#text`             | `@REM text`             |
//! | `export NAME=VALUE` | `set NAME=VALUE`        |
//! | `unset NAME`        | `set NAME=`             |
//! | `cp SRC DST`        | `copy SRC DST`          |
//! | `cp -r SRC DST`     | `xcopy /E SRC DST`      |
//! | `mv SRC DST`        | `move SRC DST`          |
//! | `rm PATH`           | `del PATH`              |
//! | `rm -rf PATH`       | `rmdir /S /Q PATH`      |
//! | `touch PATH`        | `copy /B PATH+,, PATH`  |
//! | `set -x`            | no line; asks for echo  |
//!
//! The flag of `cp` is `-r` as written; that of `rm` is the two letters in
//! either order and either case. A command with another flag is not in the
//! table. In a rewritten line every variable reference takes its percent
//! form, and the operands of `cp`, `mv`, `rm` and `touch` get backslashes
//! for slashes. Everything else is kept unchanged.

use crate::lines::is_line;
use crate::text::{
    equals_text, find_text, first_occurrence, is_first_occurrence, is_space, is_word,
    lemma_first_occurrence_exists, lemma_trim, occurs, occurs_at, push_chars, push_text,
    spec_is_space, spec_trim, trim, within,
};
use crate::vars::{
    has_no_reference, lemma_name_run, lemma_name_run_is, lemma_reference_len,
    lemma_rewrite_after_plain, lemma_rewrite_draws, lemma_rewrite_leaves_none,
    lemma_rewrite_occurrence, lemma_rewrite_plain, lemma_rewrite_split, name_len, name_run,
    percent_form, reference_len, reference_name, rewrite_vars, scan_name, spec_is_name_char,
    spec_rewrite_vars,
};
use vstd::prelude::*;
use vstd::slice::slice_subrange;

verus! {

/// The marker in front of an override. What follows it on the line is the
/// batch text that the author of the script wants in place of the line.
pub const OVERRIDE_MARKER: &'static str = "# shell2batch: ";

/// What a line was recognised as, with the parts that its batch form is
/// made of.
pub enum Shape {
    /// The line carries the override marker; `text` is what follows it,
    /// trimmed.
    Override { text: Seq<char> },
    /// Nothing but whitespace.
    Blank,
    /// `#` and the text behind it.
    Comment { text: Seq<char> },
    /// `export NAME=VALUE`; `binding` is `NAME=VALUE`.
    Export { binding: Seq<char> },
    /// `unset NAME`.
    Unset { name: Seq<char> },
    /// `cp` and its operands.
    Cp { operands: Seq<char> },
    /// `cp -r` and its operands.
    CpRecursive { operands: Seq<char> },
    /// `mv` and its operands.
    Mv { operands: Seq<char> },
    /// `rm` and its operands.
    Rm { operands: Seq<char> },
    /// `rm -rf`, in either order and either case, and its operands.
    RmRecursive { operands: Seq<char> },
    /// `touch` and one path.
    Touch { path: Seq<char> },
    /// `set -x`.
    SetX,
    /// None of the above.
    Other,
}

/// A recognised line, holding the stretch of the line that its batch form
/// is made of. Each variant stands for the `Shape` of the same name, which
/// says what it holds.
#[derive(Clone, Copy, Debug)]
pub enum Command<'a> {
    Override(&'a [char]),
    Blank,
    Comment(&'a [char]),
    Export(&'a [char]),
    Unset(&'a [char]),
    Cp(&'a [char]),
    CpRecursive(&'a [char]),
    Mv(&'a [char]),
    Rm(&'a [char]),
    RmRecursive(&'a [char]),
    Touch(&'a [char]),
    SetX,
    Other,
}

impl<'a> View for Command<'a> {
    type V = Shape;

    open spec fn view(&self) -> Shape {
        match *self {
            Command::Override(text) => Shape::Override { text: text@ },
            Command::Blank => Shape::Blank,
            Command::Comment(text) => Shape::Comment { text: text@ },
            Command::Export(binding) => Shape::Export { binding: binding@ },
            Command::Unset(name) => Shape::Unset { name: name@ },
            Command::Cp(operands) => Shape::Cp { operands: operands@ },
            Command::CpRecursive(operands) => Shape::CpRecursive { operands: operands@ },
            Command::Mv(operands) => Shape::Mv { operands: operands@ },
            Command::Rm(operands) => Shape::Rm { operands: operands@ },
            Command::RmRecursive(operands) => Shape::RmRecursive { operands: operands@ },
            Command::Touch(path) => Shape::Touch { path: path@ },
            Command::SetX => Shape::SetX,
            Command::Other => Shape::Other,
        }
    }
}

/// The length of the first word of `s`: of its longest prefix without
/// whitespace.
pub open spec fn word_len(s: Seq<char>) -> nat
    decreases s.len(),
{
    if s.len() > 0 && !spec_is_space(s[0]) {
        1 + word_len(s.skip(1))
    } else {
        0
    }
}

/// The first word of `s`.
pub open spec fn first_word(s: Seq<char>) -> Seq<char> {
    s.take(word_len(s) as int)
}

/// What follows the first word of `s`, trimmed.
pub open spec fn after_first_word(s: Seq<char>) -> Seq<char> {
    spec_trim(s.skip(word_len(s) as int))
}

/// Operands are there, and the first of them is no flag.
pub open spec fn is_operands(s: Seq<char>) -> bool {
    s.len() > 0 && s[0] != '-'
}

/// `s` is a name, an equals sign, and anything behind it.
pub open spec fn is_assignment(s: Seq<char>) -> bool {
    let n = name_len(s) as int;
    n > 0 && n < s.len() && s[n] == '='
}

/// `s` is a name and nothing else.
pub open spec fn is_name(s: Seq<char>) -> bool {
    s.len() > 0 && name_len(s) == s.len()
}

/// `s` is a dash followed by the letters R and F, each in either case, in
/// either order.
pub open spec fn is_tree_flag(s: Seq<char>) -> bool {
    &&& s.len() == 3
    &&& s[0] == '-'
    &&& {
        ||| (s[1] == 'r' || s[1] == 'R') && (s[2] == 'f' || s[2] == 'F')
        ||| (s[1] == 'f' || s[1] == 'F') && (s[2] == 'r' || s[2] == 'R')
    }
}

/// The entry of the rule table for a command word and its arguments.
pub open spec fn spec_classify_command(word: Seq<char>, args: Seq<char>) -> Shape {
    let flag = first_word(args);
    let rest = after_first_word(args);
    if word == "export"@ {
        if is_assignment(args) {
            Shape::Export { binding: args }
        } else {
            Shape::Other
        }
    } else if word == "unset"@ {
        if is_name(args) {
            Shape::Unset { name: args }
        } else {
            Shape::Other
        }
    } else if word == "cp"@ {
        if flag == "-r"@ && is_operands(rest) {
            Shape::CpRecursive { operands: rest }
        } else if is_operands(args) {
            Shape::Cp { operands: args }
        } else {
            Shape::Other
        }
    } else if word == "mv"@ {
        if is_operands(args) {
            Shape::Mv { operands: args }
        } else {
            Shape::Other
        }
    } else if word == "rm"@ {
        if is_tree_flag(flag) && is_operands(rest) {
            Shape::RmRecursive { operands: rest }
        } else if is_operands(args) {
            Shape::Rm { operands: args }
        } else {
            Shape::Other
        }
    } else if word == "touch"@ {
        if is_operands(args) && is_word(args) {
            Shape::Touch { path: args }
        } else {
            Shape::Other
        }
    } else if word == "set"@ {
        if args == "-x"@ {
            Shape::SetX
        } else {
            Shape::Other
        }
    } else {
        Shape::Other
    }
}

/// What follows the leftmost override marker of `line`, trimmed; meaningful
/// where the marker occurs.
pub open spec fn override_text(line: Seq<char>) -> Seq<char> {
    spec_trim(
        line.skip(first_occurrence(line, OVERRIDE_MARKER@) + OVERRIDE_MARKER@.len()),
    )
}

/// What `line` is recognised as. The override comes first, then the blank
/// line, then the comment, then the rule table; what is left is `Other`.
pub open spec fn spec_classify(line: Seq<char>) -> Shape {
    let body = spec_trim(line);
    if occurs(line, OVERRIDE_MARKER@) {
        Shape::Override { text: override_text(line) }
    } else if body.len() == 0 {
        Shape::Blank
    } else if body[0] == '#' {
        Shape::Comment { text: body.skip(1) }
    } else {
        spec_classify_command(first_word(body), after_first_word(body))
    }
}

/// `s` with every slash turned into a backslash.
pub open spec fn spec_flip_slashes(s: Seq<char>) -> Seq<char> {
    s.map_values(
        |c: char|
            if c == '/' {
                '\\'
            } else {
                c
            },
    )
}

/// The shapes that are rewritten into a batch command or remark.
pub open spec fn is_rewritten(shape: Shape) -> bool {
    !(shape is Override || shape is Blank || shape is SetX || shape is Other)
}

/// The batch keyword that a rewritten shape starts with, flags and the
/// separating space included.
pub open spec fn batch_keyword(shape: Shape) -> Seq<char> {
    match shape {
        Shape::Comment { .. } => "@REM "@,
        Shape::Export { .. } => "set "@,
        Shape::Unset { .. } => "set "@,
        Shape::Cp { .. } => "copy "@,
        Shape::CpRecursive { .. } => "xcopy /E "@,
        Shape::Mv { .. } => "move "@,
        Shape::Rm { .. } => "del "@,
        Shape::RmRecursive { .. } => "rmdir /S /Q "@,
        Shape::Touch { .. } => "copy /B "@,
        _ => Seq::empty(),
    }
}

/// What follows the keyword, with its variable references still in shell
/// form. The operands of the file commands get backslashes for slashes.
pub open spec fn batch_arguments(shape: Shape) -> Seq<char> {
    match shape {
        Shape::Comment { text } => text,
        Shape::Export { binding } => binding,
        Shape::Unset { name } => name + "="@,
        Shape::Cp { operands } => spec_flip_slashes(operands),
        Shape::CpRecursive { operands } => spec_flip_slashes(operands),
        Shape::Mv { operands } => spec_flip_slashes(operands),
        Shape::Rm { operands } => spec_flip_slashes(operands),
        Shape::RmRecursive { operands } => spec_flip_slashes(operands),
        Shape::Touch { path } => spec_flip_slashes(path) + "+,, "@ + spec_flip_slashes(path),
        _ => Seq::empty(),
    }
}

/// The batch command or remark for a rewritten shape, before its variable
/// references are rewritten.
pub open spec fn batch_form(shape: Shape) -> Seq<char> {
    batch_keyword(shape) + batch_arguments(shape)
}

/// The line of batch that stands for `line`, or `None` where the line
/// yields none: `set -x` only asks for echoing.
pub open spec fn spec_translate(line: Seq<char>) -> Option<Seq<char>> {
    match spec_classify(line) {
        Shape::Override { text } => Some(text),
        Shape::Blank => Some(line),
        Shape::Other => Some(line),
        Shape::SetX => None,
        shape => Some(spec_rewrite_vars(batch_form(shape))),
    }
}

/// The stretch of the line that a shape holds; empty for the shapes that
/// hold none.
pub open spec fn payload(shape: Shape) -> Seq<char> {
    match shape {
        Shape::Override { text } => text,
        Shape::Comment { text } => text,
        Shape::Export { binding } => binding,
        Shape::Unset { name } => name,
        Shape::Cp { operands } => operands,
        Shape::CpRecursive { operands } => operands,
        Shape::Mv { operands } => operands,
        Shape::Rm { operands } => operands,
        Shape::RmRecursive { operands } => operands,
        Shape::Touch { path } => path,
        _ => Seq::empty(),
    }
}

/// The first word is a prefix without whitespace, and what follows it, if
/// anything, is whitespace.
pub proof fn lemma_word_len(s: Seq<char>)
    ensures
        word_len(s) <= s.len(),
        is_word(first_word(s)),
        word_len(s) < s.len() ==> spec_is_space(s[word_len(s) as int]),
    decreases s.len(),
{
    if s.len() > 0 && !spec_is_space(s[0]) {
        let rest = s.skip(1);
        lemma_word_len(rest);
        assert forall|i: int| 0 <= i < first_word(s).len() implies !spec_is_space(
            #[trigger] first_word(s)[i],
        ) by {
            if i > 0 {
                assert(first_word(s)[i] == first_word(rest)[i - 1]);
            }
        }
    }
}

/// What is left of a tail of `s` after trimming is made of characters of
/// `s`.
proof fn lemma_within_trimmed_tail(s: Seq<char>, from: int)
    requires
        0 <= from <= s.len(),
    ensures
        within(spec_trim(s.skip(from)), s),
{
    let tail = s.skip(from);
    let part = spec_trim(tail);
    lemma_trim(tail);
    assert forall|i: int| 0 <= i < part.len() implies s.contains(#[trigger] part[i]) by {
        assert(tail.contains(part[i]));
        let k = choose|k: int| 0 <= k < tail.len() && tail[k] == part[i];
        assert(s[from + k] == part[i]);
    }
}

/// `within` is transitive.
proof fn lemma_within_chain(a: Seq<char>, b: Seq<char>, c: Seq<char>)
    requires
        within(a, b),
        within(b, c),
    ensures
        within(a, c),
{
    assert forall|i: int| 0 <= i < a.len() implies c.contains(#[trigger] a[i]) by {
        let k = choose|k: int| 0 <= k < b.len() && b[k] == a[i];
        assert(c.contains(b[k]));
    }
}

/// What a shape holds is made of characters of the line.
pub proof fn lemma_payload_within(line: Seq<char>)
    ensures
        within(payload(spec_classify(line)), line),
{
    let body = spec_trim(line);
    assert(line.skip(0) =~= line);
    lemma_within_trimmed_tail(line, 0);
    if occurs(line, OVERRIDE_MARKER@) {
        let at = choose|at: int| occurs_at(line, OVERRIDE_MARKER@, at);
        lemma_first_occurrence_exists(line, OVERRIDE_MARKER@, at);
        lemma_within_trimmed_tail(
            line,
            first_occurrence(line, OVERRIDE_MARKER@) + OVERRIDE_MARKER@.len(),
        );
    } else if body.len() == 0 {
    } else if body[0] == '#' {
        assert forall|i: int| 0 <= i < body.skip(1).len() implies body.contains(
            #[trigger] body.skip(1)[i],
        ) by {
            assert(body[i + 1] == body.skip(1)[i]);
        }
        lemma_within_chain(body.skip(1), body, line);
    } else {
        let args = after_first_word(body);
        let rest = after_first_word(args);
        lemma_word_len(body);
        lemma_word_len(args);
        lemma_within_trimmed_tail(body, word_len(body) as int);
        lemma_within_trimmed_tail(args, word_len(args) as int);
        lemma_within_chain(args, body, line);
        lemma_within_chain(rest, args, line);
    }
}

/// The keywords hold neither a sigil nor a line feed.
pub proof fn lemma_keyword_plain(shape: Shape)
    ensures
        !batch_keyword(shape).contains('$'),
        !batch_keyword(shape).contains('\n'),
{
    reveal_strlit("@REM ");
    reveal_strlit("set ");
    reveal_strlit("copy ");
    reveal_strlit("xcopy /E ");
    reveal_strlit("move ");
    reveal_strlit("del ");
    reveal_strlit("rmdir /S /Q ");
    reveal_strlit("copy /B ");
}

/// A rewritten line is its keyword, as it stands, and then its arguments
/// with their variable references rewritten.
pub proof fn lemma_translate_form(line: Seq<char>)
    requires
        is_rewritten(spec_classify(line)),
    ensures
        spec_translate(line) == Some(
            batch_keyword(spec_classify(line)) + spec_rewrite_vars(
                batch_arguments(spec_classify(line)),
            ),
        ),
{
    let shape = spec_classify(line);
    lemma_keyword_plain(shape);
    lemma_rewrite_after_plain(batch_keyword(shape), batch_arguments(shape));
}

/// In the batch line for a comment or a recognised command no variable
/// reference is left: at no index of it does a well-formed `$NAME` or
/// `${NAME}` start.
pub proof fn lemma_translate_leaves_no_reference(line: Seq<char>)
    requires
        is_rewritten(spec_classify(line)),
    ensures
        spec_translate(line) is Some,
        has_no_reference(spec_translate(line)->0),
{
    lemma_rewrite_leaves_none(batch_form(spec_classify(line)));
}

/// Every reference in the shell form of a rewritten line shows in the batch
/// line as the percent form of its name, in its place: behind what stands
/// for the part in front of it and before what stands for the part behind
/// it.
pub proof fn lemma_translate_rewrites_reference(line: Seq<char>, at: int)
    requires
        is_rewritten(spec_classify(line)),
        0 <= at <= batch_form(spec_classify(line)).len(),
        reference_len(batch_form(spec_classify(line)).skip(at)) > 0,
    ensures
        spec_translate(line) == Some(
            spec_rewrite_vars(batch_form(spec_classify(line)).take(at)) + percent_form(
                reference_name(batch_form(spec_classify(line)).skip(at)),
            ) + spec_rewrite_vars(
                batch_form(spec_classify(line)).skip(
                    at + reference_len(batch_form(spec_classify(line)).skip(at)),
                ),
            ),
        ),
{
    lemma_rewrite_occurrence(batch_form(spec_classify(line)), at);
}

/// A line that carries the override marker yields what follows its leftmost
/// marker, trimmed, whatever stands in front of the marker.
pub proof fn lemma_override_wins(line: Seq<char>, at: int)
    requires
        occurs_at(line, OVERRIDE_MARKER@, at),
    ensures
        0 <= first_occurrence(line, OVERRIDE_MARKER@) <= at,
        is_first_occurrence(line, OVERRIDE_MARKER@, first_occurrence(line, OVERRIDE_MARKER@)),
        spec_translate(line) == Some(
            spec_trim(
                line.skip(first_occurrence(line, OVERRIDE_MARKER@) + OVERRIDE_MARKER@.len()),
            ),
        ),
{
    lemma_first_occurrence_exists(line, OVERRIDE_MARKER@, at);
}

/// A blank line and a line that no rule matches are kept as they stand.
pub proof fn lemma_translate_keeps_unmatched(line: Seq<char>)
    requires
        spec_classify(line) is Blank || spec_classify(line) is Other,
    ensures
        spec_translate(line) == Some(line),
{
}

/// A line yields no batch line exactly where it is `set -x`.
pub proof fn lemma_translate_drops_echo_only(line: Seq<char>)
    ensures
        spec_translate(line) is None <==> spec_classify(line) is SetX,
{
}

/// Flipping slashes changes neither the name at the head nor its
/// characters.
proof fn lemma_flip_keeps_name(s: Seq<char>)
    ensures
        name_len(spec_flip_slashes(s)) == name_len(s),
        name_len(s) <= s.len(),
        spec_flip_slashes(s).take(name_len(s) as int) == s.take(name_len(s) as int),
{
    let flipped = spec_flip_slashes(s);
    lemma_name_run(s);
    let n = name_run(s) as int;
    assert forall|i: int| 0 <= i < n implies spec_is_name_char(#[trigger] flipped[i]) by {
        assert(spec_is_name_char(s[i]));
    }
    lemma_name_run_is(flipped, n);
    assert(flipped.take(name_len(s) as int) =~= s.take(name_len(s) as int));
}

/// Flipping slashes changes neither the reference at the head nor its name.
proof fn lemma_flip_keeps_reference(s: Seq<char>)
    ensures
        reference_len(spec_flip_slashes(s)) == reference_len(s),
        reference_len(s) > 0 ==> reference_name(spec_flip_slashes(s)) == reference_name(s),
{
    let flipped = spec_flip_slashes(s);
    lemma_reference_len(s);
    if s.len() >= 2 && s[0] == '$' {
        let from: int = if s[1] == '{' {
            2
        } else {
            1
        };
        let inner = s.skip(from);
        assert(flipped.skip(from) =~= spec_flip_slashes(inner));
        lemma_flip_keeps_name(inner);
        let n = name_len(inner) as int;
        if reference_len(s) > 0 {
            assert(flipped.subrange(from, from + n) =~= spec_flip_slashes(inner).take(n));
            assert(s.subrange(from, from + n) =~= inner.take(n));
        }
    }
}

/// Flipping slashes and rewriting references do not touch each other: the
/// two may be done in either order.
pub proof fn lemma_flip_commutes(s: Seq<char>)
    ensures
        spec_rewrite_vars(spec_flip_slashes(s)) == spec_flip_slashes(spec_rewrite_vars(s)),
    decreases s.len(),
{
    let flipped = spec_flip_slashes(s);
    if s.len() == 0 {
        assert(flipped =~= s);
    } else {
        lemma_flip_keeps_reference(s);
        lemma_reference_len(s);
        let n = reference_len(s) as int;
        if n > 0 {
            let name = reference_name(s);
            let form = percent_form(name);
            lemma_flip_commutes(s.skip(n));
            assert(flipped.skip(n) =~= spec_flip_slashes(s.skip(n)));
            assert(spec_flip_slashes(form) =~= form) by {
                assert forall|i: int| 0 <= i < name.len() implies #[trigger] name[i] != '/' by {
                    if s[1] == '{' {
                        lemma_name_run(s.skip(2));
                        assert(name[i] == s.skip(2)[i]);
                    } else {
                        lemma_name_run(s.skip(1));
                        assert(name[i] == s.skip(1)[i]);
                    }
                }
            }
            assert(spec_flip_slashes(form + spec_rewrite_vars(s.skip(n))) =~= spec_flip_slashes(
                form,
            ) + spec_flip_slashes(spec_rewrite_vars(s.skip(n))));
        } else {
            lemma_flip_commutes(s.skip(1));
            assert(flipped.skip(1) =~= spec_flip_slashes(s.skip(1)));
            assert(spec_flip_slashes(seq![s[0]] + spec_rewrite_vars(s.skip(1))) =~= seq![
                flipped[0],
            ] + spec_flip_slashes(spec_rewrite_vars(s.skip(1))));
        }
    }
}

/// `export NAME=VALUE` becomes `set NAME=` followed by the value with its
/// variable references rewritten.
pub proof fn lemma_export_form(line: Seq<char>)
    requires
        spec_classify(line) is Export,
    ensures
        ({
            let binding = payload(spec_classify(line));
            let n = name_len(binding) as int;
            &&& 0 < n < binding.len()
            &&& binding[n] == '='
            &&& spec_translate(line) == Some(
                "set "@ + binding.take(n + 1) + spec_rewrite_vars(binding.skip(n + 1)),
            )
        }),
{
    let binding = payload(spec_classify(line));
    let n = name_len(binding) as int;
    let head = binding.take(n + 1);
    lemma_translate_form(line);
    lemma_name_run(binding);
    assert forall|i: int| 0 <= i < head.len() implies #[trigger] head[i] != '$' by {
        if i < n {
            assert(spec_is_name_char(binding[i]));
        }
    }
    lemma_rewrite_after_plain(head, binding.skip(n + 1));
    assert(head + binding.skip(n + 1) =~= binding);
    assert("set "@ + (head + spec_rewrite_vars(binding.skip(n + 1))) =~= "set "@ + head
        + spec_rewrite_vars(binding.skip(n + 1)));
}

/// `unset NAME` becomes `set NAME=`.
pub proof fn lemma_unset_form(line: Seq<char>)
    requires
        spec_classify(line) is Unset,
    ensures
        is_name(payload(spec_classify(line))),
        spec_translate(line) == Some("set "@ + payload(spec_classify(line)) + "="@),
{
    let name = payload(spec_classify(line));
    let arguments = name + "="@;
    lemma_translate_form(line);
    lemma_name_run(name);
    reveal_strlit("=");
    assert forall|i: int| 0 <= i < arguments.len() implies #[trigger] arguments[i] != '$' by {
        if i < name.len() {
            assert(spec_is_name_char(name[i]));
        }
    }
    lemma_rewrite_plain(arguments);
    assert("set "@ + (name + "="@) =~= "set "@ + name + "="@);
}

/// `cp`, `cp -r`, `mv`, `rm` and `rm -rf` become their batch keyword
/// followed by the operands, with references rewritten and slashes flipped.
pub proof fn lemma_file_command_form(line: Seq<char>)
    requires
        ({
            let shape = spec_classify(line);
            shape is Cp || shape is CpRecursive || shape is Mv || shape is Rm
                || shape is RmRecursive
        }),
    ensures
        is_operands(payload(spec_classify(line))),
        spec_translate(line) == Some(
            batch_keyword(spec_classify(line)) + spec_flip_slashes(
                spec_rewrite_vars(payload(spec_classify(line))),
            ),
        ),
{
    lemma_translate_form(line);
    lemma_flip_commutes(payload(spec_classify(line)));
}

/// `touch PATH` becomes the copy of the file onto itself, with the path's
/// references rewritten and its slashes flipped in both places.
pub proof fn lemma_touch_form(line: Seq<char>)
    requires
        spec_classify(line) is Touch,
    ensures
        ({
            let path = spec_flip_slashes(spec_rewrite_vars(payload(spec_classify(line))));
            spec_translate(line) == Some("copy /B "@ + path + "+,, "@ + path)
        }),
{
    let shell = spec_flip_slashes(payload(spec_classify(line)));
    let path = spec_rewrite_vars(shell);
    lemma_translate_form(line);
    lemma_flip_commutes(payload(spec_classify(line)));
    reveal_strlit("+,, ");
    assert(("+,, "@ + shell)[0] == '+');
    assert(shell + "+,, "@ + shell =~= shell + ("+,, "@ + shell));
    lemma_rewrite_split(shell, "+,, "@ + shell);
    lemma_rewrite_after_plain("+,, "@, shell);
    assert("copy /B "@ + (path + ("+,, "@ + path)) =~= "copy /B "@ + path + "+,, "@ + path);
}

/// A comment becomes a remark: `@REM`, a space, and the text behind the
/// `#` with its variable references rewritten.
pub proof fn lemma_comment_form(line: Seq<char>)
    requires
        spec_classify(line) is Comment,
    ensures
        spec_trim(line).len() > 0,
        spec_trim(line)[0] == '#',
        spec_translate(line) == Some("@REM "@ + spec_rewrite_vars(spec_trim(line).skip(1))),
{
    lemma_translate_form(line);
}

/// Flipping slashes adds no line feed.
proof fn lemma_flip_is_line(s: Seq<char>)
    requires
        is_line(s),
    ensures
        is_line(spec_flip_slashes(s)),
{
}

/// Translation adds no line feed: the batch line for a line without one
/// holds none.
pub proof fn lemma_translate_is_line(line: Seq<char>)
    requires
        is_line(line),
        spec_translate(line) is Some,
    ensures
        is_line(spec_translate(line)->0),
{
    let shape = spec_classify(line);
    let part = payload(shape);
    let out = spec_translate(line)->0;
    lemma_payload_within(line);
    assert(is_line(part)) by {
        assert forall|i: int| 0 <= i < part.len() implies #[trigger] part[i] != '\n' by {
            let k = choose|k: int| 0 <= k < line.len() && line[k] == part[i];
        }
    }
    if is_rewritten(shape) {
        let keyword = batch_keyword(shape);
        let arguments = batch_arguments(shape);
        let form = keyword + arguments;
        lemma_keyword_plain(shape);
        lemma_flip_is_line(part);
        reveal_strlit("=");
        reveal_strlit("+,, ");
        assert(is_line(arguments));
        assert(is_line(form)) by {
            assert forall|i: int| 0 <= i < form.len() implies #[trigger] form[i] != '\n' by {
                if i < keyword.len() {
                    assert(keyword.contains(keyword[i]));
                } else {
                    assert(form[i] == arguments[i - keyword.len()]);
                }
            }
        }
        lemma_rewrite_draws(form);
        assert forall|i: int| 0 <= i < out.len() implies #[trigger] out[i] != '\n' by {
            if out[i] != '%' {
                let k = choose|k: int| 0 <= k < form.len() && form[k] == out[i];
            }
        }
    }
}

/// The index just behind the first word of `s`.
pub fn scan_word(s: &[char]) -> (end: usize)
    ensures
        end <= s.len(),
        end == word_len(s@),
{
    let mut end: usize = 0;
    assert(s@.skip(0) =~= s@);
    while end < s.len() && !is_space(s[end])
        invariant
            end <= s.len(),
            word_len(s@) == end + word_len(s@.skip(end as int)),
        decreases s.len() - end,
    {
        assert(s@.skip(end as int).skip(1) =~= s@.skip(end + 1));
        end += 1;
    }
    end
}

/// Splits `s` into its first word and what follows it, trimmed.
pub fn split_word(s: &[char]) -> (parts: (&[char], &[char]))
    ensures
        parts.0@ == first_word(s@),
        parts.1@ == after_first_word(s@),
{
    let end = scan_word(s);
    let word = slice_subrange(s, 0, end);
    let rest = slice_subrange(s, end, s.len());
    assert(s@.subrange(0, end as int) =~= s@.take(end as int));
    assert(s@.subrange(end as int, s@.len() as int) =~= s@.skip(end as int));
    (word, trim(rest))
}

/// Tests whether operands are there and start with no dash.
fn check_operands(s: &[char]) -> (b: bool)
    ensures
        b == is_operands(s@),
{
    s.len() > 0 && s[0] != '-'
}

/// Tests whether `s` is a name, an equals sign, and anything behind it.
fn check_assignment(s: &[char]) -> (b: bool)
    ensures
        b == is_assignment(s@),
{
    let end = scan_name(s);
    end > 0 && end < s.len() && s[end] == '='
}

/// Tests whether `s` is a name and nothing else.
fn check_name(s: &[char]) -> (b: bool)
    ensures
        b == is_name(s@),
{
    let end = scan_name(s);
    s.len() > 0 && end == s.len()
}

/// Tests whether `s` is the flag for removing a tree without asking.
fn check_tree_flag(s: &[char]) -> (b: bool)
    ensures
        b == is_tree_flag(s@),
{
    if s.len() != 3 || s[0] != '-' {
        return false;
    }
    let a = s[1];
    let b = s[2];
    ((a == 'r' || a == 'R') && (b == 'f' || b == 'F')) || ((a == 'f' || a == 'F') && (b == 'r'
        || b == 'R'))
}

/// Tests whether `s` holds no whitespace.
fn check_word(s: &[char]) -> (b: bool)
    ensures
        b == is_word(s@),
{
    let mut i: usize = 0;
    while i < s.len()
        invariant
            i <= s.len(),
            forall|k: int| 0 <= k < i ==> !spec_is_space(#[trigger] s@[k]),
        decreases s.len() - i,
    {
        if is_space(s[i]) {
            return false;
        }
        i += 1;
    }
    true
}

/// Looks a command word and its arguments up in the rule table.
pub fn classify_command<'a>(word: &[char], args: &'a [char]) -> (command: Command<'a>)
    ensures
        command@ == spec_classify_command(word@, args@),
{
    let (flag, rest) = split_word(args);
    if equals_text(word, "export") {
        if check_assignment(args) {
            Command::Export(args)
        } else {
            Command::Other
        }
    } else if equals_text(word, "unset") {
        if check_name(args) {
            Command::Unset(args)
        } else {
            Command::Other
        }
    } else if equals_text(word, "cp") {
        if equals_text(flag, "-r") && check_operands(rest) {
            Command::CpRecursive(rest)
        } else if check_operands(args) {
            Command::Cp(args)
        } else {
            Command::Other
        }
    } else if equals_text(word, "mv") {
        if check_operands(args) {
            Command::Mv(args)
        } else {
            Command::Other
        }
    } else if equals_text(word, "rm") {
        if check_tree_flag(flag) && check_operands(rest) {
            Command::RmRecursive(rest)
        } else if check_operands(args) {
            Command::Rm(args)
        } else {
            Command::Other
        }
    } else if equals_text(word, "touch") {
        if check_operands(args) && check_word(args) {
            Command::Touch(args)
        } else {
            Command::Other
        }
    } else if equals_text(word, "set") {
        if equals_text(args, "-x") {
            Command::SetX
        } else {
            Command::Other
        }
    } else {
        Command::Other
    }
}

/// Recognises a line.
pub fn classify<'a>(line: &'a [char]) -> (command: Command<'a>)
    ensures
        command@ == spec_classify(line@),
{
    if let Some((_, end)) = find_text(line, OVERRIDE_MARKER) {
        let rest = slice_subrange(line, end, line.len());
        assert(line@.subrange(end as int, line@.len() as int) =~= line@.skip(end as int));
        return Command::Override(trim(rest));
    }
    let body = trim(line);
    if body.len() == 0 {
        return Command::Blank;
    }
    if body[0] == '#' {
        let text = slice_subrange(body, 1, body.len());
        assert(body@.subrange(1, body@.len() as int) =~= body@.skip(1));
        return Command::Comment(text);
    }
    let (word, args) = split_word(body);
    classify_command(word, args)
}

/// Appends `s` to `out` with every slash turned into a backslash.
pub fn push_flipped(out: &mut Vec<char>, s: &[char])
    ensures
        final(out)@ == old(out)@ + spec_flip_slashes(s@),
{
    let mut i: usize = 0;
    while i < s.len()
        invariant
            i <= s.len(),
            out@ == old(out)@ + spec_flip_slashes(s@.take(i as int)),
        decreases s.len() - i,
    {
        let c = s[i];
        out.push(
            if c == '/' {
                '\\'
            } else {
                c
            },
        );
        assert(out@ =~= old(out)@ + spec_flip_slashes(s@.take(i + 1)));
        i += 1;
    }
    assert(s@.take(s@.len() as int) =~= s@);
}

/// Writes out the batch command or remark for a rewritten shape, with its
/// variable references still in shell form; nothing for the other shapes.
pub fn render(command: &Command) -> (out: Vec<char>)
    ensures
        out@ == batch_form(command@),
{
    let mut out: Vec<char> = Vec::new();
    match *command {
        Command::Comment(text) => {
            push_text(&mut out, "@REM ");
            push_chars(&mut out, text);
        },
        Command::Export(binding) => {
            push_text(&mut out, "set ");
            push_chars(&mut out, binding);
        },
        Command::Unset(name) => {
            push_text(&mut out, "set ");
            push_chars(&mut out, name);
            push_text(&mut out, "=");
        },
        Command::Cp(operands) => {
            push_text(&mut out, "copy ");
            push_flipped(&mut out, operands);
        },
        Command::CpRecursive(operands) => {
            push_text(&mut out, "xcopy /E ");
            push_flipped(&mut out, operands);
        },
        Command::Mv(operands) => {
            push_text(&mut out, "move ");
            push_flipped(&mut out, operands);
        },
        Command::Rm(operands) => {
            push_text(&mut out, "del ");
            push_flipped(&mut out, operands);
        },
        Command::RmRecursive(operands) => {
            push_text(&mut out, "rmdir /S /Q ");
            push_flipped(&mut out, operands);
        },
        Command::Touch(path) => {
            push_text(&mut out, "copy /B ");
            push_flipped(&mut out, path);
            push_text(&mut out, "+,, ");
            push_flipped(&mut out, path);
        },
        _ => {},
    }
    assert(out@ =~= batch_form(command@));
    out
}

/// Translates one line: the line of batch that stands for it, or `None` for
/// `set -x`, which yields no line of its own.
///
/// A line with the override marker gives what the marker dictates, whatever
/// else it holds. A blank line and a line that no rule matches come back
/// unchanged. In the batch line for a comment or a recognised command no
/// variable reference is left.
pub fn translate(line: &[char]) -> (out: Option<Vec<char>>)
    ensures
        match out {
            Some(batch) => spec_translate(line@) == Some(batch@),
            None => spec_translate(line@) is None,
        },
        out is None <==> spec_classify(line@) is SetX,
        occurs(line@, OVERRIDE_MARKER@) ==> out is Some && out->0@ == override_text(line@),
        spec_classify(line@) is Blank || spec_classify(line@) is Other ==> out is Some && out->0@
            == line@,
        is_rewritten(spec_classify(line@)) ==> out is Some && has_no_reference(out->0@),
{
    proof {
        if is_rewritten(spec_classify(line@)) {
            lemma_translate_leaves_no_reference(line@);
        }
    }
    let command = classify(line);
    match command {
        Command::Override(text) => Some(vstd::slice::slice_to_vec(text)),
        Command::Blank => Some(vstd::slice::slice_to_vec(line)),
        Command::Other => Some(vstd::slice::slice_to_vec(line)),
        Command::SetX => None,
        _ => {
            let shell = render(&command);
            Some(rewrite_vars(shell.as_slice()))
        },
    }
}

} // verus!
