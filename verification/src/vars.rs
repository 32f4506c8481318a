//! Variable references: `$NAME` and `${NAME}` become `%NAME%`.
//!
//! A name is a letter or an underscore followed by the longest run of
//! letters, digits and underscores. A `$` that starts no such reference is
//! an ordinary character.

use crate::text::{drawn_from, push_chars};
use vstd::prelude::*;
use vstd::slice::slice_subrange;

verus! {

/// A character that may start a name.
pub open spec fn spec_is_name_start(c: char) -> bool {
    ('a' <= c && c <= 'z') || ('A' <= c && c <= 'Z') || c == '_'
}

/// A character that may stand in a name.
pub open spec fn spec_is_name_char(c: char) -> bool {
    spec_is_name_start(c) || ('0' <= c && c <= '9')
}

/// The length of the longest prefix of `s` made of name characters.
pub open spec fn name_run(s: Seq<char>) -> nat
    decreases s.len(),
{
    if s.len() > 0 && spec_is_name_char(s[0]) {
        1 + name_run(s.skip(1))
    } else {
        0
    }
}

/// The length of the name at the head of `s`, or 0 where none starts there.
pub open spec fn name_len(s: Seq<char>) -> nat {
    if s.len() > 0 && spec_is_name_start(s[0]) {
        name_run(s)
    } else {
        0
    }
}

/// The length of the reference at the head of `s`, sigil and braces
/// included, or 0 where none starts there.
pub open spec fn reference_len(s: Seq<char>) -> nat {
    if s.len() >= 2 && s[0] == '$' {
        if s[1] == '{' {
            let n = name_len(s.skip(2)) as int;
            if n > 0 && 2 + n < s.len() && s[2 + n] == '}' {
                (n + 3) as nat
            } else {
                0
            }
        } else {
            let n = name_len(s.skip(1));
            if n > 0 {
                n + 1
            } else {
                0
            }
        }
    } else {
        0
    }
}

/// The name of the reference at the head of `s`; meaningful where
/// `reference_len(s) > 0`.
pub open spec fn reference_name(s: Seq<char>) -> Seq<char> {
    if s[1] == '{' {
        s.subrange(2, reference_len(s) - 1)
    } else {
        s.subrange(1, reference_len(s) as int)
    }
}

/// A name between two percent signs.
pub open spec fn percent_form(name: Seq<char>) -> Seq<char> {
    seq!['%'] + name + seq!['%']
}

/// At no index of `s` does a reference start.
pub open spec fn has_no_reference(s: Seq<char>) -> bool {
    forall|at: int| 0 <= at <= s.len() ==> reference_len(#[trigger] s.skip(at)) == 0
}

/// `s` read from left to right, with every reference replaced by the percent
/// form of its name and every other character kept.
pub open spec fn spec_rewrite_vars(s: Seq<char>) -> Seq<char>
    decreases s.len(),
{
    if s.len() == 0 {
        s
    } else {
        let n = reference_len(s);
        if n > 0 {
            proof {
                lemma_reference_len(s);
            }
            percent_form(reference_name(s)) + spec_rewrite_vars(s.skip(n as int))
        } else {
            seq![s[0]] + spec_rewrite_vars(s.skip(1))
        }
    }
}

/// A run of name characters is a prefix: it holds name characters only and
/// what follows it is none.
pub proof fn lemma_name_run(s: Seq<char>)
    ensures
        name_run(s) <= s.len(),
        forall|i: int| 0 <= i < name_run(s) ==> spec_is_name_char(#[trigger] s[i]),
        name_run(s) < s.len() ==> !spec_is_name_char(s[name_run(s) as int]),
    decreases s.len(),
{
    if s.len() > 0 && spec_is_name_char(s[0]) {
        let rest = s.skip(1);
        lemma_name_run(rest);
        assert forall|i: int| 0 <= i < name_run(s) implies spec_is_name_char(#[trigger] s[i]) by {
            if i > 0 {
                assert(s[i] == rest[i - 1]);
            }
        }
    }
}

/// A reference lies within the sequence, and its name is a proper name.
pub proof fn lemma_reference_len(s: Seq<char>)
    ensures
        reference_len(s) <= s.len(),
        reference_len(s) > 0 ==> s[0] == '$' && reference_len(s) >= 2 && reference_name(s).len()
            > 0,
{
    if s.len() >= 2 && s[0] == '$' {
        lemma_name_run(s.skip(1));
        lemma_name_run(s.skip(2));
    }
}

/// An index with name characters only in front of it, which is the end of
/// the sequence or holds a character that is none, is `name_run`.
pub proof fn lemma_name_run_is(s: Seq<char>, n: int)
    requires
        0 <= n <= s.len(),
        forall|i: int| 0 <= i < n ==> spec_is_name_char(#[trigger] s[i]),
        n < s.len() ==> !spec_is_name_char(s[n]),
    ensures
        name_run(s) == n,
{
    lemma_name_run(s);
}

/// A character after which a name or a reference cannot go on: no name
/// character and no brace.
pub open spec fn is_boundary(c: char) -> bool {
    !spec_is_name_char(c) && c != '{' && c != '}'
}

/// The rewritten sequence starts as the given one does, but for a sigil that
/// became a percent sign.
pub proof fn lemma_rewrite_head(s: Seq<char>)
    requires
        s.len() > 0,
    ensures
        spec_rewrite_vars(s).len() > 0,
        spec_rewrite_vars(s)[0] == s[0] || (s[0] == '$' && spec_rewrite_vars(s)[0] == '%'),
{
    lemma_reference_len(s);
}

/// The run of name characters at the head is copied as it stands.
pub proof fn lemma_rewrite_name_run(s: Seq<char>)
    ensures
        spec_rewrite_vars(s) == s.take(name_run(s) as int) + spec_rewrite_vars(
            s.skip(name_run(s) as int),
        ),
    decreases s.len(),
{
    if s.len() > 0 && spec_is_name_char(s[0]) {
        let rest = s.skip(1);
        lemma_rewrite_name_run(rest);
        lemma_name_run(rest);
        let n = name_run(rest) as int;
        assert(rest.skip(n) =~= s.skip(n + 1));
        assert(seq![s[0]] + rest.take(n) =~= s.take(n + 1));
        assert(seq![s[0]] + (rest.take(n) + spec_rewrite_vars(rest.skip(n))) =~= seq![s[0]]
            + rest.take(n) + spec_rewrite_vars(rest.skip(n)));
    } else {
        assert(s.skip(0) =~= s);
        assert(s.take(0) + spec_rewrite_vars(s) =~= spec_rewrite_vars(s));
    }
}

/// Every character of the rewritten sequence is a percent sign or comes from
/// the given one.
pub proof fn lemma_rewrite_draws(s: Seq<char>)
    ensures
        drawn_from(spec_rewrite_vars(s), s, '%'),
    decreases s.len(),
{
    let out = spec_rewrite_vars(s);
    if s.len() > 0 {
        lemma_reference_len(s);
        let n = reference_len(s) as int;
        if n > 0 {
            let form = percent_form(reference_name(s));
            let rest = s.skip(n);
            lemma_rewrite_draws(rest);
            assert forall|i: int| 0 <= i < out.len() implies #[trigger] out[i] == '%' || s.contains(
                out[i],
            ) by {
                if i < form.len() {
                    if 0 < i < form.len() - 1 {
                        let from: int = if s[1] == '{' {
                            2
                        } else {
                            1
                        };
                        assert(out[i] == s[from + i - 1]);
                    }
                } else {
                    let c = spec_rewrite_vars(rest)[i - form.len()];
                    assert(out[i] == c);
                    if c != '%' {
                        let j = choose|j: int| 0 <= j < rest.len() && rest[j] == c;
                        assert(s[n + j] == c);
                    }
                }
            }
        } else {
            let rest = s.skip(1);
            lemma_rewrite_draws(rest);
            assert forall|i: int| 0 <= i < out.len() implies #[trigger] out[i] == '%' || s.contains(
                out[i],
            ) by {
                if i == 0 {
                    assert(out[0] == s[0]);
                } else {
                    let c = spec_rewrite_vars(rest)[i - 1];
                    assert(out[i] == c);
                    if c != '%' {
                        let j = choose|j: int| 0 <= j < rest.len() && rest[j] == c;
                        assert(s[1 + j] == c);
                    }
                }
            }
        }
    }
}

/// The name at the head of the rewritten sequence is the name at the head of
/// the given one, and what follows it is no closing brace unless it was one.
proof fn lemma_rewrite_keeps_name(s: Seq<char>)
    ensures
        name_len(spec_rewrite_vars(s)) == name_len(s),
        name_len(s) < spec_rewrite_vars(s).len() <==> name_len(s) < s.len(),
        name_len(s) < s.len() && spec_rewrite_vars(s)[name_len(s) as int] == '}' ==> s[name_len(
            s,
        ) as int] == '}',
{
    let out = spec_rewrite_vars(s);
    lemma_name_run(s);
    if s.len() > 0 {
        lemma_rewrite_head(s);
    }
    if s.len() > 0 && spec_is_name_start(s[0]) {
        let n = name_run(s) as int;
        let rest = s.skip(n);
        lemma_rewrite_name_run(s);
        if rest.len() > 0 {
            lemma_rewrite_head(rest);
            assert(out[n] == spec_rewrite_vars(rest)[0]);
        }
        assert forall|i: int| 0 <= i < n implies spec_is_name_char(#[trigger] out[i]) by {
            assert(out[i] == s[i]);
        }
        lemma_name_run_is(out, n);
    }
}

/// No reference starts at index `at` of the rewritten sequence.
proof fn lemma_rewrite_leaves_none_at(s: Seq<char>, at: int)
    requires
        0 <= at <= spec_rewrite_vars(s).len(),
    ensures
        reference_len(spec_rewrite_vars(s).skip(at)) == 0,
    decreases s.len(),
{
    let out = spec_rewrite_vars(s);
    if s.len() == 0 {
    } else {
        lemma_reference_len(s);
        let n = reference_len(s) as int;
        if n > 0 {
            let form = percent_form(reference_name(s));
            let rest = s.skip(n);
            if at >= form.len() {
                assert(out.skip(at) =~= spec_rewrite_vars(rest).skip(at - form.len()));
                lemma_rewrite_leaves_none_at(rest, at - form.len());
            } else {
                assert(out.skip(at)[0] == form[at]);
                if 0 < at < form.len() - 1 {
                    if s[1] == '{' {
                        lemma_name_run(s.skip(2));
                        assert(form[at] == s.skip(2)[at - 1]);
                    } else {
                        lemma_name_run(s.skip(1));
                        assert(form[at] == s.skip(1)[at - 1]);
                    }
                }
            }
        } else {
            let rest = s.skip(1);
            if at >= 1 {
                assert(out.skip(at) =~= spec_rewrite_vars(rest).skip(at - 1));
                lemma_rewrite_leaves_none_at(rest, at - 1);
            } else {
                assert(out.skip(0) =~= out);
                if s[0] == '$' && rest.len() > 0 {
                    lemma_rewrite_head(rest);
                    assert(out[1] == spec_rewrite_vars(rest)[0]);
                    if rest[0] == '{' {
                        let inner = s.skip(2);
                        assert(rest.skip(1) =~= inner);
                        assert(out.skip(2) =~= spec_rewrite_vars(inner));
                        lemma_rewrite_keeps_name(inner);
                        let m = name_len(inner) as int;
                        if m < inner.len() {
                            assert(out[2 + m] == spec_rewrite_vars(inner)[m]);
                            assert(s[2 + m] == inner[m]);
                        }
                    } else {
                        if spec_is_name_start(rest[0]) {
                            assert(name_run(rest) >= 1);
                        }
                        assert(out.skip(1)[0] == out[1]);
                    }
                }
            }
        }
    }
}

/// After rewriting, no reference is left: at no index of the result does a
/// well-formed `$NAME` or `${NAME}` start.
pub proof fn lemma_rewrite_leaves_none(s: Seq<char>)
    ensures
        has_no_reference(spec_rewrite_vars(s)),
{
    let out = spec_rewrite_vars(s);
    assert forall|at: int| 0 <= at <= out.len() implies reference_len(#[trigger] out.skip(at))
        == 0 by {
        lemma_rewrite_leaves_none_at(s, at);
    }
}

/// A sequence in which no reference starts is left as it is.
pub proof fn lemma_rewrite_fixed(s: Seq<char>)
    requires
        has_no_reference(s),
    ensures
        spec_rewrite_vars(s) == s,
    decreases s.len(),
{
    if s.len() > 0 {
        assert(s.skip(0) =~= s);
        let rest = s.skip(1);
        assert forall|at: int| 0 <= at <= rest.len() implies reference_len(
            #[trigger] rest.skip(at),
        ) == 0 by {
            assert(rest.skip(at) =~= s.skip(at + 1));
        }
        lemma_rewrite_fixed(rest);
        assert(seq![s[0]] + rest =~= s);
    }
}

/// A sequence without a sigil is left as it is.
pub proof fn lemma_rewrite_plain(s: Seq<char>)
    requires
        !s.contains('$'),
    ensures
        spec_rewrite_vars(s) == s,
{
    assert forall|at: int| 0 <= at <= s.len() implies reference_len(#[trigger] s.skip(at))
        == 0 by {
        if at < s.len() {
            assert(s.skip(at)[0] == s[at]);
        }
    }
    lemma_rewrite_fixed(s);
}

/// Rewriting twice is rewriting once.
pub proof fn lemma_rewrite_idempotent(s: Seq<char>)
    ensures
        spec_rewrite_vars(spec_rewrite_vars(s)) == spec_rewrite_vars(s),
{
    lemma_rewrite_leaves_none(s);
    lemma_rewrite_fixed(spec_rewrite_vars(s));
}

/// The name at the head does not change when a sequence that starts with a
/// boundary character is put behind.
proof fn lemma_name_len_append(a: Seq<char>, b: Seq<char>)
    requires
        b.len() > 0 ==> !spec_is_name_char(b[0]),
    ensures
        name_len(a + b) == name_len(a),
{
    lemma_name_run(a);
    let n = name_run(a) as int;
    let all = a + b;
    assert forall|i: int| 0 <= i < n implies spec_is_name_char(#[trigger] all[i]) by {
        assert(all[i] == a[i]);
    }
    if n < a.len() {
        assert(all[n] == a[n]);
    } else if b.len() > 0 {
        assert(all[n] == b[0]);
    }
    lemma_name_run_is(all, n);
    if a.len() > 0 {
        assert(all[0] == a[0]);
    } else if b.len() > 0 {
        assert(all[0] == b[0]);
    }
}

/// The reference at the head does not change when a sequence that starts
/// with a boundary character is put behind.
proof fn lemma_reference_append(a: Seq<char>, b: Seq<char>)
    requires
        a.len() > 0,
        b.len() > 0 ==> is_boundary(b[0]),
    ensures
        reference_len(a + b) == reference_len(a),
        reference_len(a) > 0 ==> reference_name(a + b) == reference_name(a),
{
    let all = a + b;
    assert(all[0] == a[0]);
    lemma_reference_len(a);
    if a[0] == '$' {
        if a.len() == 1 {
            if b.len() > 0 {
                assert(all[1] == b[0]);
                assert(all.skip(1) =~= b);
            }
        } else {
            assert(all[1] == a[1]);
            if a[1] == '{' {
                assert(all.skip(2) =~= a.skip(2) + b);
                lemma_name_len_append(a.skip(2), b);
                lemma_name_run(a.skip(2));
                let n = name_len(a.skip(2)) as int;
                if 2 + n < a.len() {
                    assert(all[2 + n] == a[2 + n]);
                } else if b.len() > 0 {
                    assert(all[2 + n] == b[0]);
                }
                if reference_len(a) > 0 {
                    assert(all.subrange(2, n + 2) =~= a.subrange(2, n + 2));
                }
            } else {
                assert(all.skip(1) =~= a.skip(1) + b);
                lemma_name_len_append(a.skip(1), b);
                let n = name_len(a.skip(1)) as int;
                if reference_len(a) > 0 {
                    assert(all.subrange(1, n + 1) =~= a.subrange(1, n + 1));
                }
            }
        }
    }
}

/// Rewriting goes part by part wherever the second part starts with a
/// boundary character: a sigil, a space, a separator.
pub proof fn lemma_rewrite_split(a: Seq<char>, b: Seq<char>)
    requires
        b.len() > 0 ==> is_boundary(b[0]),
    ensures
        spec_rewrite_vars(a + b) == spec_rewrite_vars(a) + spec_rewrite_vars(b),
    decreases a.len(),
{
    let all = a + b;
    if a.len() == 0 {
        assert(all =~= b);
        assert(spec_rewrite_vars(a) + spec_rewrite_vars(b) =~= spec_rewrite_vars(b));
    } else {
        lemma_reference_append(a, b);
        lemma_reference_len(a);
        let n = reference_len(a) as int;
        if n > 0 {
            let form = percent_form(reference_name(a));
            assert(all.skip(n) =~= a.skip(n) + b);
            lemma_rewrite_split(a.skip(n), b);
            assert(form + (spec_rewrite_vars(a.skip(n)) + spec_rewrite_vars(b)) =~= form
                + spec_rewrite_vars(a.skip(n)) + spec_rewrite_vars(b));
        } else {
            assert(all.skip(1) =~= a.skip(1) + b);
            lemma_rewrite_split(a.skip(1), b);
            assert(seq![a[0]] + (spec_rewrite_vars(a.skip(1)) + spec_rewrite_vars(b)) =~= seq![
                a[0],
            ] + spec_rewrite_vars(a.skip(1)) + spec_rewrite_vars(b));
        }
    }
}

/// Wherever a reference starts in `s`, the result holds the percent form of
/// its name in its place: between what the part in front of it becomes and
/// what the part behind it becomes.
pub proof fn lemma_rewrite_occurrence(s: Seq<char>, at: int)
    requires
        0 <= at <= s.len(),
        reference_len(s.skip(at)) > 0,
    ensures
        at + reference_len(s.skip(at)) <= s.len(),
        spec_rewrite_vars(s) == spec_rewrite_vars(s.take(at)) + percent_form(
            reference_name(s.skip(at)),
        ) + spec_rewrite_vars(s.skip(at + reference_len(s.skip(at)))),
{
    let tail = s.skip(at);
    let n = reference_len(tail) as int;
    lemma_reference_len(tail);
    assert(s.take(at) + tail =~= s);
    lemma_rewrite_split(s.take(at), tail);
    assert(tail.skip(n) =~= s.skip(at + n));
    assert(spec_rewrite_vars(s.take(at)) + (percent_form(reference_name(tail))
        + spec_rewrite_vars(s.skip(at + n))) =~= spec_rewrite_vars(s.take(at)) + percent_form(
        reference_name(tail),
    ) + spec_rewrite_vars(s.skip(at + n)));
}

/// A part without a sigil in front is copied, and what follows is rewritten
/// as if it stood alone.
pub proof fn lemma_rewrite_after_plain(plain: Seq<char>, s: Seq<char>)
    requires
        !plain.contains('$'),
    ensures
        spec_rewrite_vars(plain + s) == plain + spec_rewrite_vars(s),
    decreases plain.len(),
{
    let all = plain + s;
    if plain.len() == 0 {
        assert(all =~= s);
        assert(plain + spec_rewrite_vars(s) =~= spec_rewrite_vars(s));
    } else {
        assert(plain[0] != '$');
        assert(all[0] == plain[0]);
        let rest = plain.skip(1);
        assert(all.skip(1) =~= rest + s);
        assert forall|i: int| 0 <= i < rest.len() implies rest[i] != '$' by {
            assert(rest[i] == plain[i + 1]);
        }
        lemma_rewrite_after_plain(rest, s);
        assert(seq![plain[0]] + (rest + spec_rewrite_vars(s)) =~= plain + spec_rewrite_vars(s));
    }
}

/// Tests whether `c` may start a name.
pub fn is_name_start(c: char) -> (b: bool)
    ensures
        b == spec_is_name_start(c),
{
    ('a' <= c && c <= 'z') || ('A' <= c && c <= 'Z') || c == '_'
}

/// Tests whether `c` may stand in a name.
pub fn is_name_char(c: char) -> (b: bool)
    ensures
        b == spec_is_name_char(c),
{
    is_name_start(c) || ('0' <= c && c <= '9')
}

/// The length of the name at the head of `s`, or 0 where none starts there.
pub fn scan_name(s: &[char]) -> (n: usize)
    ensures
        n <= s.len(),
        n == name_len(s@),
{
    if s.len() == 0 || !is_name_start(s[0]) {
        return 0;
    }
    let mut n: usize = 0;
    assert(s@.skip(0) =~= s@);
    while n < s.len() && is_name_char(s[n])
        invariant
            n <= s.len(),
            name_run(s@) == n + name_run(s@.skip(n as int)),
        decreases s.len() - n,
    {
        assert(s@.skip(n as int).skip(1) =~= s@.skip(n + 1));
        n += 1;
    }
    n
}

/// Looks for a reference at the head of `s`: where one starts there, its
/// name and its length, sigil and braces included.
pub fn scan_reference(s: &[char]) -> (found: Option<(&[char], usize)>)
    ensures
        match found {
            Some((name, len)) => {
                &&& 0 < len <= s.len()
                &&& len == reference_len(s@)
                &&& name@ == reference_name(s@)
            },
            None => reference_len(s@) == 0,
        },
{
    if s.len() < 2 || s[0] != '$' {
        return None;
    }
    if s[1] == '{' {
        let inner = slice_subrange(s, 2, s.len());
        assert(inner@ =~= s@.skip(2));
        let n = scan_name(inner);
        if n > 0 && n < s.len() - 2 && s[2 + n] == '}' {
            Some((slice_subrange(s, 2, 2 + n), n + 3))
        } else {
            None
        }
    } else {
        let inner = slice_subrange(s, 1, s.len());
        assert(inner@ =~= s@.skip(1));
        let n = scan_name(inner);
        if n > 0 {
            Some((slice_subrange(s, 1, 1 + n), n + 1))
        } else {
            None
        }
    }
}

/// Rewrites every variable reference of `s` into its percent form. No
/// reference is left in the result.
pub fn rewrite_vars(s: &[char]) -> (out: Vec<char>)
    ensures
        out@ == spec_rewrite_vars(s@),
        has_no_reference(out@),
{
    let mut out: Vec<char> = Vec::new();
    let mut at: usize = 0;
    assert(s@.skip(0) =~= s@);
    while at < s.len()
        invariant
            at <= s.len(),
            out@ + spec_rewrite_vars(s@.skip(at as int)) == spec_rewrite_vars(s@),
        decreases s.len() - at,
    {
        let ghost before = out@;
        let tail = slice_subrange(s, at, s.len());
        assert(tail@ =~= s@.skip(at as int));
        match scan_reference(tail) {
            Some((name, len)) => {
                out.push('%');
                push_chars(&mut out, name);
                out.push('%');
                proof {
                    assert(tail@.skip(len as int) =~= s@.skip(at + len));
                    assert(out@ =~= before + percent_form(name@));
                    assert(out@ + spec_rewrite_vars(s@.skip(at + len)) =~= before + (percent_form(
                        name@,
                    ) + spec_rewrite_vars(s@.skip(at + len))));
                }
                at += len;
            },
            None => {
                out.push(s[at]);
                proof {
                    assert(tail@.skip(1) =~= s@.skip(at + 1));
                    assert(out@ + spec_rewrite_vars(s@.skip(at + 1)) =~= before + (seq![tail@[0]]
                        + spec_rewrite_vars(s@.skip(at + 1))));
                }
                at += 1;
            },
        }
    }
    assert(out@ + Seq::<char>::empty() =~= out@);
    proof {
        lemma_rewrite_leaves_none(s@);
    }
    out
}

} // verus!
