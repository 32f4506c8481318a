//! Sequences of characters: whitespace, trimming, literal search, and the
//! passage between `str` / `String` and slices of `char`.
//!
//! Every routine of the converter works on `&[char]`, whose view is the
//! `Seq<char>` that the contracts speak of.

use vstd::prelude::*;

verus! {

/// `String::push` appends the given character to the end of the string and
/// leaves what was there before untouched.
pub assume_specification[ String::push ](s: &mut String, c: char)
    ensures
        final(s)@ == old(s)@.push(c),
;

/// The characters that separate words and may pad a line.
pub open spec fn spec_is_space(c: char) -> bool {
    c == ' ' || c == '\t' || c == '\n' || c == '\r' || c == '\x0b' || c == '\x0c'
}

/// `s` without its leading whitespace.
pub open spec fn spec_trim_start(s: Seq<char>) -> Seq<char>
    decreases s.len(),
{
    if s.len() > 0 && spec_is_space(s.first()) {
        spec_trim_start(s.drop_first())
    } else {
        s
    }
}

/// `s` without its trailing whitespace.
pub open spec fn spec_trim_end(s: Seq<char>) -> Seq<char>
    decreases s.len(),
{
    if s.len() > 0 && spec_is_space(s.last()) {
        spec_trim_end(s.drop_last())
    } else {
        s
    }
}

/// `s` without its leading and trailing whitespace.
pub open spec fn spec_trim(s: Seq<char>) -> Seq<char> {
    spec_trim_end(spec_trim_start(s))
}

/// No character of `s` is whitespace.
pub open spec fn is_word(s: Seq<char>) -> bool {
    forall|i: int| 0 <= i < s.len() ==> !spec_is_space(#[trigger] s[i])
}

/// `text` stands in `s` at index `at`.
pub open spec fn occurs_at(s: Seq<char>, text: Seq<char>, at: int) -> bool {
    0 <= at && at + text.len() <= s.len() && s.subrange(at, at + text.len()) == text
}

/// `text` stands somewhere in `s`.
pub open spec fn occurs(s: Seq<char>, text: Seq<char>) -> bool {
    exists|at: int| occurs_at(s, text, at)
}

/// `at` is the leftmost index at which `text` stands in `s`.
pub open spec fn is_first_occurrence(s: Seq<char>, text: Seq<char>, at: int) -> bool {
    occurs_at(s, text, at) && forall|b: int| 0 <= b < at ==> !occurs_at(s, text, b)
}

/// The leftmost index at which `text` stands in `s`; meaningful where
/// `occurs(s, text)`.
pub open spec fn first_occurrence(s: Seq<char>, text: Seq<char>) -> int {
    choose|at: int| is_first_occurrence(s, text, at)
}

/// Every character of `part` is a character of `whole`.
pub open spec fn within(part: Seq<char>, whole: Seq<char>) -> bool {
    forall|i: int| 0 <= i < part.len() ==> whole.contains(#[trigger] part[i])
}

/// Every character of `s` is `c`, or already a character of `from`.
pub open spec fn drawn_from(s: Seq<char>, from: Seq<char>, c: char) -> bool {
    forall|i: int| 0 <= i < s.len() ==> #[trigger] s[i] == c || from.contains(s[i])
}

/// Whichever index satisfies `is_first_occurrence` is the one that
/// `first_occurrence` names.
pub proof fn lemma_first_occurrence(s: Seq<char>, text: Seq<char>, at: int)
    requires
        is_first_occurrence(s, text, at),
    ensures
        occurs(s, text),
        first_occurrence(s, text) == at,
{
    let chosen = first_occurrence(s, text);
    assert(is_first_occurrence(s, text, chosen));
    if chosen < at {
        assert(!occurs_at(s, text, chosen));
    }
    if at < chosen {
        assert(!occurs_at(s, text, at));
    }
}

/// Where `text` stands in `s` at all, it has a leftmost occurrence, which lies
/// at or before any given one.
pub proof fn lemma_first_occurrence_exists(s: Seq<char>, text: Seq<char>, at: int)
    requires
        occurs_at(s, text, at),
    ensures
        is_first_occurrence(s, text, first_occurrence(s, text)),
        0 <= first_occurrence(s, text) <= at,
    decreases at,
{
    if exists|b: int| 0 <= b < at && occurs_at(s, text, b) {
        let b = choose|b: int| 0 <= b < at && occurs_at(s, text, b);
        lemma_first_occurrence_exists(s, text, b);
    } else {
        assert(is_first_occurrence(s, text, at));
        lemma_first_occurrence(s, text, at);
    }
}

/// Trimming at the front removes a prefix of whitespace and stops at the first
/// character that is none.
pub proof fn lemma_trim_start(s: Seq<char>)
    ensures
        spec_trim_start(s).len() <= s.len(),
        spec_trim_start(s) == s.skip(s.len() - spec_trim_start(s).len()),
        forall|i: int| 0 <= i < s.len() - spec_trim_start(s).len() ==> spec_is_space(#[trigger] s[i]),
        spec_trim_start(s).len() > 0 ==> !spec_is_space(spec_trim_start(s).first()),
    decreases s.len(),
{
    if s.len() > 0 && spec_is_space(s.first()) {
        let rest = s.drop_first();
        lemma_trim_start(rest);
        let k = rest.len() - spec_trim_start(rest).len();
        assert(rest.skip(k) =~= s.skip(k + 1));
        assert forall|i: int| 0 <= i < s.len() - spec_trim_start(s).len() implies spec_is_space(
            #[trigger] s[i],
        ) by {
            if i > 0 {
                assert(s[i] == rest[i - 1]);
            }
        }
    } else {
        assert(s.skip(0) =~= s);
    }
}

/// Trimming at the back removes a suffix of whitespace and stops at the last
/// character that is none.
pub proof fn lemma_trim_end(s: Seq<char>)
    ensures
        spec_trim_end(s).len() <= s.len(),
        spec_trim_end(s) == s.take(spec_trim_end(s).len() as int),
        forall|i: int| spec_trim_end(s).len() <= i < s.len() ==> spec_is_space(#[trigger] s[i]),
        spec_trim_end(s).len() > 0 ==> !spec_is_space(spec_trim_end(s).last()),
    decreases s.len(),
{
    if s.len() > 0 && spec_is_space(s.last()) {
        let rest = s.drop_last();
        lemma_trim_end(rest);
        let k = spec_trim_end(rest).len() as int;
        assert(rest.take(k) =~= s.take(k));
        assert forall|i: int| spec_trim_end(s).len() <= i < s.len() implies spec_is_space(
            #[trigger] s[i],
        ) by {
            if i < rest.len() {
                assert(s[i] == rest[i]);
            }
        }
    } else {
        assert(s.take(s.len() as int) =~= s);
    }
}

/// A trimmed sequence is a stretch of the untrimmed one that neither starts
/// nor ends with whitespace; trimming it again changes nothing.
pub proof fn lemma_trim(s: Seq<char>)
    ensures
        spec_trim(s).len() <= s.len(),
        spec_trim(s).len() > 0 ==> !spec_is_space(spec_trim(s).first()) && !spec_is_space(
            spec_trim(s).last(),
        ),
        spec_trim(spec_trim(s)) == spec_trim(s),
        within(spec_trim(s), s),
{
    let front = spec_trim_start(s);
    let both = spec_trim_end(front);
    lemma_trim_start(s);
    lemma_trim_end(front);
    if both.len() > 0 {
        assert(both.first() == front.first());
    }
    assert(spec_trim_start(both) == both);
    assert(spec_trim_end(both) == both);
    assert forall|i: int| 0 <= i < both.len() implies s.contains(#[trigger] both[i]) by {
        assert(front[i] == both[i]);
        assert(s[s.len() - front.len() + i] == both[i]);
    }
}

/// Tests whether `c` is whitespace.
pub fn is_space(c: char) -> (b: bool)
    ensures
        b == spec_is_space(c),
{
    c == ' ' || c == '\t' || c == '\n' || c == '\r' || c == '\x0b' || c == '\x0c'
}

/// The stretch of `s` that is left when the whitespace at both ends is taken
/// away.
pub fn trim(s: &[char]) -> (t: &[char])
    ensures
        t@ == spec_trim(s@),
{
    let mut lo: usize = 0;
    assert(s@.skip(0) =~= s@);
    while lo < s.len() && is_space(s[lo])
        invariant
            lo <= s.len(),
            spec_trim_start(s@.skip(lo as int)) == spec_trim_start(s@),
        decreases s.len() - lo,
    {
        assert(s@.skip(lo as int).drop_first() =~= s@.skip(lo + 1));
        lo += 1;
    }
    let mut hi: usize = s.len();
    assert(s@.subrange(lo as int, hi as int) =~= s@.skip(lo as int));
    while hi > lo && is_space(s[hi - 1])
        invariant
            lo <= hi <= s.len(),
            spec_trim_end(s@.subrange(lo as int, hi as int)) == spec_trim(s@),
        decreases hi - lo,
    {
        assert(s@.subrange(lo as int, hi as int).drop_last() =~= s@.subrange(
            lo as int,
            hi - 1,
        ));
        hi -= 1;
    }
    vstd::slice::slice_subrange(s, lo, hi)
}

/// Tests whether `text` stands in `s` at index `at`, and if so returns the
/// index just behind it.
pub fn match_text(s: &[char], at: usize, text: &str) -> (end: Option<usize>)
    ensures
        end is Some <==> occurs_at(s@, text@, at as int),
        end is Some ==> end->0 == at + text@.len(),
{
    if at > s.len() {
        return None;
    }
    let mut i: usize = at;
    for c in it: text.chars()
        invariant
            it.seq() == text@,
            at <= i <= s.len(),
            i == at + it.index(),
            s@.subrange(at as int, i as int) == text@.take(it.index() as int),
    {
        if i < s.len() && s[i] == c {
            assert(s@.subrange(at as int, i + 1) =~= s@.subrange(at as int, i as int).push(c));
            assert(text@.take(it.index() + 1) =~= text@.take(it.index() as int).push(c));
            i += 1;
        } else {
            proof {
                if occurs_at(s@, text@, at as int) {
                    assert(s@.subrange(at as int, at + text@.len())[it.index() as int]
                        == text@[it.index() as int]);
                }
            }
            return None;
        }
    }
    assert(text@.take(text@.len() as int) =~= text@);
    Some(i)
}

/// Tests whether `s` is exactly `text`.
pub fn equals_text(s: &[char], text: &str) -> (b: bool)
    ensures
        b == (s@ == text@),
{
    let end = match_text(s, 0, text);
    assert(s@.subrange(0, s@.len() as int) =~= s@);
    match end {
        Some(e) => e == s.len(),
        None => false,
    }
}

/// Finds the leftmost place where `text` stands in `s`: the index where it
/// starts and the index just behind it.
pub fn find_text(s: &[char], text: &str) -> (found: Option<(usize, usize)>)
    ensures
        match found {
            Some((start, end)) => {
                &&& occurs(s@, text@)
                &&& start == first_occurrence(s@, text@)
                &&& end == start + text@.len()
                &&& end <= s.len()
            },
            None => !occurs(s@, text@),
        },
{
    let mut at: usize = 0;
    while at < s.len()
        invariant
            at <= s.len(),
            forall|b: int| 0 <= b < at ==> !occurs_at(s@, text@, b),
        decreases s.len() - at,
    {
        if let Some(end) = match_text(s, at, text) {
            proof {
                lemma_first_occurrence(s@, text@, at as int);
            }
            return Some((at, end));
        }
        at += 1;
    }
    if let Some(end) = match_text(s, at, text) {
        proof {
            lemma_first_occurrence(s@, text@, at as int);
        }
        return Some((at, end));
    }
    None
}

/// Appends the characters of `text` to `out`.
pub fn push_text(out: &mut Vec<char>, text: &str)
    ensures
        final(out)@ == old(out)@ + text@,
{
    for c in it: text.chars()
        invariant
            it.seq() == text@,
            out@ == old(out)@ + text@.take(it.index() as int),
    {
        assert(text@.take(it.index() + 1) =~= text@.take(it.index() as int).push(c));
        out.push(c);
    }
    assert(text@.take(text@.len() as int) =~= text@);
}

/// Appends the characters of `s` to `out`.
pub fn push_chars(out: &mut Vec<char>, s: &[char])
    ensures
        final(out)@ == old(out)@ + s@,
{
    let mut i: usize = 0;
    while i < s.len()
        invariant
            i <= s.len(),
            out@ == old(out)@ + s@.take(i as int),
        decreases s.len() - i,
    {
        assert(s@.take(i + 1) =~= s@.take(i as int).push(s@[i as int]));
        out.push(s[i]);
        i += 1;
    }
    assert(s@.take(s@.len() as int) =~= s@);
}

/// The characters of a string slice, in order.
pub fn chars_of(text: &str) -> (v: Vec<char>)
    ensures
        v@ == text@,
{
    let mut v: Vec<char> = Vec::new();
    push_text(&mut v, text);
    v
}

/// The string made of the characters of `s`, in order.
pub fn string_of(s: &[char]) -> (text: String)
    ensures
        text@ == s@,
{
    let mut text = String::new();
    let mut i: usize = 0;
    while i < s.len()
        invariant
            i <= s.len(),
            text@ == s@.take(i as int),
        decreases s.len() - i,
    {
        assert(s@.take(i + 1) =~= s@.take(i as int).push(s@[i as int]));
        text.push(s[i]);
        i += 1;
    }
    assert(s@.take(s@.len() as int) =~= s@);
    text
}

} // verus!
