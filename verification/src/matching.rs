//! Matches of patterns in the text.

use crate::text;
use vstd::prelude::*;
use vstd::utf8::*;

verus! {

pub open spec fn spans_view(spans: Seq<(usize, usize)>) -> Seq<(int, int)> {
    Seq::new(spans.len(), |i: int| (spans[i].0 as int, spans[i].1 as int))
}

/// The spans lie in the text, on boundaries, one after the other.
pub open spec fn spans_wf(t: Seq<u8>, spans: Seq<(int, int)>) -> bool {
    &&& forall|i: int|
        #![trigger spans[i]]
        0 <= i < spans.len() ==> 0 <= spans[i].0 <= spans[i].1 <= t.len() && text::is_boundary(
            t,
            spans[i].0,
        ) && text::is_boundary(t, spans[i].1)
    &&& forall|i: int, j: int|
        #![trigger spans[i], spans[j]]
        0 <= i < j < spans.len() ==> spans[i].1 <= spans[j].0
}

/// The characters that mean something else than themselves in a pattern.
pub open spec fn is_meta_character(c: char) -> bool {
    c == '\\' || c == '.' || c == '+' || c == '*' || c == '?' || c == '(' || c == ')' || c == '|'
        || c == '[' || c == ']' || c == '{' || c == '}' || c == '^' || c == '$' || c == '#' || c
        == '&' || c == '-' || c == '~'
}

/// The pattern that matches just `s`: a backslash goes before each character that
/// would mean something else.
pub open spec fn escaped_pattern(s: Seq<char>) -> Seq<char>
    decreases s.len(),
{
    if s.len() == 0 {
        s
    } else if is_meta_character(s.last()) {
        escaped_pattern(s.drop_last()).push('\\').push(s.last())
    } else {
        escaped_pattern(s.drop_last()).push(s.last())
    }
}

/// Calls `regex::escape`, which puts a backslash before each of the characters
/// that mean something else in a pattern and leaves the others.
#[verifier::external_body]
pub(crate) fn escape_pattern(s: &str) -> (pattern: String)
    ensures
        pattern@ == escaped_pattern(s@),
{
    regex::escape(s)
}

/// The matches that `regex::Regex::find_iter` gives for the pattern, compiled
/// with the given options and limits, or `None` where it does not compile.
pub uninterp spec fn regex_matches(
    pattern: Seq<char>,
    case_insensitive: bool,
    multi_line: bool,
    size_limit: usize,
    dfa_size_limit: usize,
    text: Seq<char>,
) -> Option<Seq<(int, int)>>;

/// Compiles `pattern` with `regex::RegexBuilder` and calls
/// `regex::Regex::find_iter`: the spans of the matches are named by
/// `regex_matches`. They are byte ranges of the text on boundaries, and no
/// match reaches into the next.
#[verifier::external_body]
pub(crate) fn find_regex(
    pattern: &str,
    case_insensitive: bool,
    multi_line: bool,
    size_limit: usize,
    dfa_size_limit: usize,
    text: &str,
) -> (found: Option<Vec<(usize, usize)>>)
    ensures
        match found {
            Some(spans) => regex_matches(
                pattern@,
                case_insensitive,
                multi_line,
                size_limit,
                dfa_size_limit,
                text@,
            ) == Some(spans_view(spans@)) && spans_wf(encode_utf8(text@), spans_view(spans@)),
            None => regex_matches(
                pattern@,
                case_insensitive,
                multi_line,
                size_limit,
                dfa_size_limit,
                text@,
            ) is None,
        },
{
    let mut builder = regex::RegexBuilder::new(pattern);
    builder.case_insensitive(case_insensitive).multi_line(multi_line);
    builder.size_limit(size_limit).dfa_size_limit(dfa_size_limit);
    let compiled = builder.build().ok()?;
    Some(compiled.find_iter(text).map(|found| (found.start(), found.end())).collect())
}

/// The whole match at or after the offset, and what `regex::Captures::expand`
/// makes of the template with its groups; `None` where there is no match or
/// the pattern does not compile.
pub uninterp spec fn regex_expansion(
    pattern: Seq<char>,
    case_insensitive: bool,
    multi_line: bool,
    size_limit: usize,
    dfa_size_limit: usize,
    text: Seq<char>,
    start: usize,
    template: Seq<char>,
) -> Option<(int, int, Seq<char>)>;

/// Compiles `pattern` with `regex::RegexBuilder`, calls
/// `regex::Regex::captures_at` and expands the template with
/// `regex::Captures::expand`: the result is named by `regex_expansion`.
#[verifier::external_body]
pub(crate) fn expand_regex(
    pattern: &str,
    case_insensitive: bool,
    multi_line: bool,
    limits: (usize, usize),
    text: &str,
    start: usize,
    template: &str,
) -> (found: Option<(usize, usize, String)>)
    requires
        start <= encode_utf8(text@).len(),
        text::is_boundary(encode_utf8(text@), start as int),
    ensures
        match found {
            Some((from, to, expanded)) => regex_expansion(
                pattern@,
                case_insensitive,
                multi_line,
                limits.0,
                limits.1,
                text@,
                start,
                template@,
            ) == Some((from as int, to as int, expanded@)),
            None => regex_expansion(
                pattern@,
                case_insensitive,
                multi_line,
                limits.0,
                limits.1,
                text@,
                start,
                template@,
            ) is None,
        },
{
    let mut builder = regex::RegexBuilder::new(pattern);
    builder.case_insensitive(case_insensitive).multi_line(multi_line);
    builder.size_limit(limits.0).dfa_size_limit(limits.1);
    let compiled = builder.build().ok()?;
    let captures = compiled.captures_at(text, start)?;
    let whole = captures.get(0)?;
    let mut expanded = String::new();
    captures.expand(template, &mut expanded);
    Some((whole.start(), whole.end(), expanded))
}

/// A byte with an ASCII capital letter made small, where case does not count.
pub open spec fn folded(b: u8, ignore_case: bool) -> u8 {
    if ignore_case && 65 <= b <= 90 {
        (b + 32) as u8
    } else {
        b
    }
}

/// Whether `needle` stands at `at`.
pub open spec fn stands_at(hay: Seq<u8>, at: int, needle: Seq<u8>, ignore_case: bool) -> bool {
    0 <= at && at + needle.len() <= hay.len() && forall|i: int|
        0 <= i < needle.len() ==> folded(#[trigger] needle[i], ignore_case) == folded(
            hay[at + i],
            ignore_case,
        )
}

/// The places of `needle` from `from` on, from left to right, none of which
/// reaches into the next.
pub open spec fn literal_matches(
    hay: Seq<u8>,
    needle: Seq<u8>,
    ignore_case: bool,
    from: int,
) -> Seq<(int, int)>
    decreases hay.len() - from,
{
    if from < 0 || from >= hay.len() || needle.len() == 0 {
        Seq::empty()
    } else if stands_at(hay, from, needle, ignore_case) {
        seq![(from, from + needle.len())] + literal_matches(
            hay,
            needle,
            ignore_case,
            from + needle.len(),
        )
    } else {
        literal_matches(hay, needle, ignore_case, from + 1)
    }
}

/// Builds an `aho_corasick::AhoCorasick` for the one pattern `needle` and
/// calls its `stream_find_iter` on the bytes of `hay`: the spans are those of
/// the pattern from left to right, none reaching into the next, ASCII case
/// aside where that is asked.
#[verifier::external_body]
pub(crate) fn find_literal(needle: &str, ignore_case: bool, hay: &str) -> (found: Vec<
    (usize, usize),
>)
    requires
        0 < encode_utf8(needle@).len() < 0x1000_0000,
    ensures
        spans_view(found@) == literal_matches(
            encode_utf8(hay@),
            encode_utf8(needle@),
            ignore_case,
            0,
        ),
{
    let mut builder = aho_corasick::AhoCorasick::builder();
    let automaton = builder.ascii_case_insensitive(ignore_case).build([needle]);
    let automaton = automaton.expect("one bounded pattern builds");
    let found = automaton.stream_find_iter(hay.as_bytes());
    found.map(|m| m.expect("bytes in memory are read")).map(|m| (m.start(), m.end())).collect()
}

/// Where a text stands in another, its ends are boundaries.
proof fn lemma_stands_on_boundaries(t: Seq<u8>, at: int, needle: Seq<u8>, ignore_case: bool)
    requires
        valid_utf8(t),
        valid_utf8(needle),
        stands_at(t, at, needle, ignore_case),
        text::is_boundary(t, at),
    ensures
        text::is_boundary(t, at + needle.len()),
    decreases needle.len(),
{
    if needle.len() > 0 {
        let tail = t.subrange(at, t.len() as int);
        text::lemma_boundary(t, at);
        valid_utf8_split(t, at);
        assert(valid_first_scalar(needle));
        assert(folded(needle[0], ignore_case) == folded(t[at + 0], ignore_case));
        assert(tail[0] == t[at]);
        assert(valid_first_scalar(tail));
        let size = length_of_first_scalar(needle);
        assert(length_of_first_scalar(tail) == size);
        let rest = pop_first_scalar(needle);
        let behind = pop_first_scalar(tail);
        assert(valid_utf8(behind));
        if at + size < t.len() {
            assert(behind[0] == t[at + size]);
            assert(valid_first_scalar(behind));
        }
        assert(text::is_boundary(t, at + size));
        assert forall|i: int| 0 <= i < rest.len() implies folded(#[trigger] rest[i], ignore_case)
            == folded(t[at + size + i], ignore_case) by {
            assert(rest[i] == needle[size + i]);
            assert(folded(needle[size + i], ignore_case) == folded(
                t[at + (size + i)],
                ignore_case,
            ));
        }
        lemma_stands_on_boundaries(t, at + size, rest, ignore_case);
    }
}

/// The places of a text lie in the other one after the other, on boundaries.
pub proof fn lemma_literal_matches(t: Seq<u8>, needle: Seq<u8>, ignore_case: bool, from: int)
    requires
        valid_utf8(t),
        valid_utf8(needle),
        0 <= from,
    ensures
        spans_wf(t, literal_matches(t, needle, ignore_case, from)),
        forall|i: int|
            #![trigger literal_matches(t, needle, ignore_case, from)[i]]
            0 <= i < literal_matches(t, needle, ignore_case, from).len() ==> from
                <= literal_matches(t, needle, ignore_case, from)[i].0,
    decreases t.len() - from,
{
    let spans = literal_matches(t, needle, ignore_case, from);
    if from < t.len() && needle.len() > 0 {
        if stands_at(t, from, needle, ignore_case) {
            assert(valid_first_scalar(needle));
            assert(folded(needle[0], ignore_case) == folded(t[from + 0], ignore_case));
            assert(text::is_boundary(t, from));
            lemma_stands_on_boundaries(t, from, needle, ignore_case);
            lemma_literal_matches(t, needle, ignore_case, from + needle.len());
            let rest = literal_matches(t, needle, ignore_case, from + needle.len());
            assert forall|i: int| #![trigger spans[i]] 0 <= i < spans.len() implies 0 <= spans[i].0
                <= spans[i].1 <= t.len() && text::is_boundary(t, spans[i].0) && text::is_boundary(
                t,
                spans[i].1,
            ) && from <= spans[i].0 by {
                if i > 0 {
                    assert(spans[i] == rest[i - 1]);
                }
            }
            assert forall|i: int, j: int| #![trigger spans[i], spans[j]] 0 <= i < j < spans.len() implies spans[i].1
                <= spans[j].0 by {
                assert(spans[j] == rest[j - 1]);
                if i > 0 {
                    assert(spans[i] == rest[i - 1]);
                }
            }
        } else {
            lemma_literal_matches(t, needle, ignore_case, from + 1);
        }
    }
}

} // verus!
