//! Searching and replacing.

use crate::chars;
use crate::edit;
use crate::matching;
use crate::rope;
use crate::text;
use ropey::Rope;
use std::ops::Range;
use vstd::prelude::*;
use vstd::string::*;
use vstd::utf8::*;

verus! {

pub const MAX_SEARCH_SELECTION_SEED_BYTES: usize = 16_384;

pub const MAX_REGEX_QUERY_BYTES: usize = 16_384;

pub const MAX_REGEX_COMPILED_BYTES: usize = 2_097_152;

/// The selected text as a query: only a short one on a single line is taken.
pub open spec fn search_seed(selected: Seq<char>) -> Seq<char> {
    if 0 < encode_utf8(selected).len() <= MAX_SEARCH_SELECTION_SEED_BYTES && !selected.contains(
        '\n',
    ) && !selected.contains('\r') {
        selected
    } else {
        Seq::empty()
    }
}

fn has_char(s: &str, wanted: char) -> (found: bool)
    ensures
        found == s@.contains(wanted),
{
    let chars = chars::chars_of(s);
    let mut i: usize = 0;
    while i < chars.len()
        invariant
            i <= chars@.len(),
            chars@ == s@,
            forall|k: int| 0 <= k < i ==> chars@[k] != wanted,
        decreases chars.len() - i,
    {
        if chars[i] == wanted {
            assert(s@[i as int] == wanted);
            return true;
        }
        i = i + 1;
    }
    false
}

/// The selected text as a query: only a short one on a single line is taken.
pub fn bounded_single_line_search_seed(selected_text: String) -> (seed: String)
    ensures
        seed@ == search_seed(selected_text@),
{
    let size: usize = selected_text.as_str().as_bytes().len();
    if size > 0 && size <= MAX_SEARCH_SELECTION_SEED_BYTES && !has_char(
        selected_text.as_str(),
        '\n',
    ) && !has_char(selected_text.as_str(), '\r') {
        selected_text
    } else {
        String::new()
    }
}

/// Whether the span is not empty and does not cut a word at either end.
pub open spec fn is_whole_word(t: Seq<u8>, span: (int, int)) -> bool {
    &&& span.0 < span.1
    &&& !(chars::is_word_character(chars::char_at(t, span.0)) && span.0 > 0
        && chars::is_word_character(chars::char_before(t, span.0)))
    &&& !(chars::is_word_character(chars::char_before(t, span.1)) && span.1 < t.len()
        && chars::is_word_character(chars::char_at(t, span.1)))
}

fn is_whole_word_match(text: &str, start: usize, end: usize) -> (whole: bool)
    requires
        start <= end <= encode_utf8(text@).len(),
        text::is_boundary(encode_utf8(text@), start as int),
        text::is_boundary(encode_utf8(text@), end as int),
    ensures
        whole == is_whole_word(encode_utf8(text@), (start as int, end as int)),
{
    let len: usize = text.as_bytes().len();
    if start >= end {
        return false;
    }
    if chars::check_word_character(chars::read_char(text, start).0) && start > 0
        && chars::check_word_character(chars::read_char_before(text, start)) {
        return false;
    }
    if chars::check_word_character(chars::read_char_before(text, end)) && end < len
        && chars::check_word_character(chars::read_char(text, end).0) {
        return false;
    }
    true
}

/// Whether a dollar sign and this start a reference to a group.
pub open spec fn starts_reference(c: char) -> bool {
    c == '&' || c == '{' || c == '_' || ('0' <= c && c <= '9') || ('A' <= c && c <= 'Z') || ('a'
        <= c && c <= 'z')
}

/// Whether the replacement refers to a group from `from` on.
pub open spec fn uses_capture(s: Seq<char>, from: int) -> bool
    decreases s.len() - from,
{
    if from < 0 || from >= s.len() {
        false
    } else if s[from] != '$' || from + 1 >= s.len() {
        uses_capture(s, from + 1)
    } else if s[from + 1] == '$' {
        uses_capture(s, from + 2)
    } else {
        starts_reference(s[from + 1]) || uses_capture(s, from + 1)
    }
}

fn replacement_uses_capture(reference: &str) -> (uses: bool)
    ensures
        uses == uses_capture(reference@, 0),
{
    let chars = chars::chars_of(reference);
    let mut i: usize = 0;
    while i < chars.len()
        invariant
            i <= chars@.len(),
            chars@ == reference@,
            uses_capture(chars@, 0) == uses_capture(chars@, i as int),
        decreases chars.len() - i,
    {
        if chars[i] == '$' && i + 1 < chars.len() {
            let c = chars[i + 1];
            if c == '$' {
                i = i + 1;
            } else if c == '&' || c == '{' || c == '_' || ('0' <= c && c <= '9') || ('A' <= c && c
                <= 'Z') || ('a' <= c && c <= 'z') {
                return true;
            }
        }
        i = i + 1;
    }
    false
}

/// The replacement in the notation of regular expressions, from `from` on:
/// `$&` stands for the whole match, `\n` and `\t` for a line feed and a tab.
pub open spec fn regex_replacement(s: Seq<char>, from: int) -> Seq<char>
    decreases s.len() - from,
{
    if from < 0 || from >= s.len() {
        Seq::empty()
    } else if from + 1 < s.len() && s[from] == '$' && s[from + 1] == '&' {
        seq!['$', '{', '0', '}'] + regex_replacement(s, from + 2)
    } else if from + 1 < s.len() && s[from] == '\\' && s[from + 1] == 'n' {
        seq!['\n'] + regex_replacement(s, from + 2)
    } else if from + 1 < s.len() && s[from] == '\\' && s[from + 1] == 't' {
        seq!['\t'] + regex_replacement(s, from + 2)
    } else if from + 1 < s.len() && s[from] == '\\' && s[from + 1] == '\\' {
        seq!['\\'] + regex_replacement(s, from + 2)
    } else {
        seq![s[from]] + regex_replacement(s, from + 1)
    }
}

fn normalize_regex_replacement(reference: &str) -> (normalized: String)
    ensures
        normalized@ == regex_replacement(reference@, 0),
{
    let chars = chars::chars_of(reference);
    let mut normalized = String::new();
    let mut i: usize = 0;
    assert(normalized@ + regex_replacement(chars@, 0) =~= regex_replacement(chars@, 0));
    while i < chars.len()
        invariant
            i <= chars@.len(),
            chars@ == reference@,
            normalized@ + regex_replacement(chars@, i as int) == regex_replacement(chars@, 0),
        decreases chars.len() - i,
    {
        let c = chars[i];
        let ghost before = normalized@;
        if i + 1 < chars.len() && c == '$' && chars[i + 1] == '&' {
            chars::push_char(&mut normalized, '$');
            chars::push_char(&mut normalized, '{');
            chars::push_char(&mut normalized, '0');
            chars::push_char(&mut normalized, '}');
            i = i + 2;
            assert(normalized@ + regex_replacement(chars@, i as int) =~= before + (seq![
                '$',
                '{',
                '0',
                '}',
            ] + regex_replacement(chars@, i as int)));
        } else if i + 1 < chars.len() && c == '\\' && chars[i + 1] == 'n' {
            chars::push_char(&mut normalized, '\n');
            i = i + 2;
            assert(normalized@ + regex_replacement(chars@, i as int) =~= before + (seq!['\n']
                + regex_replacement(chars@, i as int)));
        } else if i + 1 < chars.len() && c == '\\' && chars[i + 1] == 't' {
            chars::push_char(&mut normalized, '\t');
            i = i + 2;
            assert(normalized@ + regex_replacement(chars@, i as int) =~= before + (seq!['\t']
                + regex_replacement(chars@, i as int)));
        } else if i + 1 < chars.len() && c == '\\' && chars[i + 1] == '\\' {
            chars::push_char(&mut normalized, '\\');
            i = i + 2;
            assert(normalized@ + regex_replacement(chars@, i as int) =~= before + (seq!['\\']
                + regex_replacement(chars@, i as int)));
        } else {
            chars::push_char(&mut normalized, c);
            i = i + 1;
            assert(normalized@ + regex_replacement(chars@, i as int) =~= before + (seq![c]
                + regex_replacement(chars@, i as int)));
        }
    }
    assert(normalized@ + Seq::<char>::empty() =~= normalized@);
    normalized
}

/// The parts of `s` between separators, the last of which starts at `from`
/// and has been read up to `to`.
pub open spec fn split_from(s: Seq<char>, separator: char, from: int, to: int) -> Seq<Seq<char>>
    decreases s.len() - to,
{
    if to < 0 || to >= s.len() {
        seq![s.subrange(from, s.len() as int)]
    } else if s[to] == separator {
        seq![s.subrange(from, to)] + split_from(s, separator, to + 1, to + 1)
    } else {
        split_from(s, separator, from, to + 1)
    }
}

pub open spec fn split(s: Seq<char>, separator: char) -> Seq<Seq<char>> {
    split_from(s, separator, 0, 0)
}

pub open spec fn join(parts: Seq<Seq<char>>, separator: char, n: int) -> Seq<char>
    decreases n,
{
    if n <= 0 {
        Seq::empty()
    } else if n == 1 {
        parts[0]
    } else {
        join(parts, separator, n - 1).push(separator) + parts[n - 1]
    }
}

/// The replacement with the case of its first character changed.
pub open spec fn with_first_case(s: Seq<char>, upper: bool) -> Seq<char> {
    if s.len() == 0 {
        Seq::empty()
    } else if upper {
        chars::char_uppercase(s[0]) + s.skip(1)
    } else {
        chars::char_lowercase(s[0]) + s.skip(1)
    }
}

/// The first `n` parts of the replacement, each in the case of its part of a
/// match that is `bound` characters long.
pub open spec fn cased_parts(from: Seq<Seq<char>>, to: Seq<Seq<char>>, bound: nat, n: int) -> Seq<
    Seq<char>,
>
    decreases bound, 0int, n,
{
    if n <= 0 {
        Seq::empty()
    } else {
        cased_parts(from, to, bound, n - 1).push(
            if from[n - 1].len() < bound {
                preserved_case(from[n - 1], to[n - 1])
            } else {
                to[n - 1]
            },
        )
    }
}

/// The replacement in the case of the match, part by part between separators,
/// where both have the same number of parts.
pub open spec fn case_by_parts(
    matched: Seq<char>,
    replacement: Seq<char>,
    separator: char,
) -> Option<Seq<char>>
    decreases matched.len(), 1int, 0int,
{
    let from = split(matched, separator);
    let to = split(replacement, separator);
    if !matched.contains(separator) || !replacement.contains(separator) || from.len() != to.len() {
        None
    } else {
        Some(
            join(
                cased_parts(from, to, matched.len(), from.len() as int),
                separator,
                from.len() as int,
            ),
        )
    }
}

/// The replacement in the case of the match.
pub open spec fn preserved_case(matched: Seq<char>, replacement: Seq<char>) -> Seq<char>
    decreases matched.len(), 2int, 0int,
{
    let hyphenated = case_by_parts(matched, replacement, '-');
    let underscored = case_by_parts(matched, replacement, '_');
    if matched.len() == 0 || replacement.len() == 0 {
        replacement
    } else if hyphenated is Some && underscored is None {
        hyphenated->Some_0
    } else if hyphenated is None && underscored is Some {
        underscored->Some_0
    } else if chars::uppercase(matched) == matched {
        chars::uppercase(replacement)
    } else if chars::lowercase(matched) == matched {
        chars::lowercase(replacement)
    } else {
        let first = seq![matched[0]];
        let upper = chars::char_uppercase(matched[0]);
        let lower = chars::char_lowercase(matched[0]);
        if upper == first && lower != first {
            with_first_case(replacement, true)
        } else if lower == first && upper != first {
            with_first_case(replacement, false)
        } else {
            replacement
        }
    }
}

proof fn lemma_split_len(s: Seq<char>, separator: char, from: int, to: int)
    requires
        0 <= from <= to <= s.len(),
    ensures
        split_from(s, separator, from, to).len() >= 1,
        forall|i: int|
            #![trigger split_from(s, separator, from, to)[i]]
            0 <= i < split_from(s, separator, from, to).len() ==> split_from(
                s,
                separator,
                from,
                to,
            )[i].len() <= s.len() - from,
        (exists|k: int| to <= k < s.len() && #[trigger] s[k] == separator) ==> forall|i: int|
            #![trigger split_from(s, separator, from, to)[i]]
            0 <= i < split_from(s, separator, from, to).len() ==> split_from(
                s,
                separator,
                from,
                to,
            )[i].len() < s.len() - from,
    decreases s.len() - to,
{
    let parts = split_from(s, separator, from, to);
    if to < s.len() {
        if s[to] == separator {
            lemma_split_len(s, separator, to + 1, to + 1);
            let rest = split_from(s, separator, to + 1, to + 1);
            assert forall|i: int| #![trigger parts[i]] 0 <= i < parts.len() implies parts[i].len()
                < s.len() - from by {
                if i > 0 {
                    assert(parts[i] == rest[i - 1]);
                }
            }
        } else {
            lemma_split_len(s, separator, from, to + 1);
            if exists|k: int| to <= k < s.len() && #[trigger] s[k] == separator {
                let k = choose|k: int| to <= k < s.len() && #[trigger] s[k] == separator;
                assert(to + 1 <= k);
            }
        }
    }
}

pub open spec fn strings_view(parts: Seq<String>) -> Seq<Seq<char>> {
    Seq::new(parts.len(), |i: int| parts[i]@)
}

fn slice_chars(chars: &Vec<char>, from: usize, to: usize) -> (part: String)
    requires
        from <= to <= chars@.len(),
    ensures
        part@ == chars@.subrange(from as int, to as int),
{
    let mut part = String::new();
    let mut i: usize = from;
    while i < to
        invariant
            from <= i <= to <= chars@.len(),
            part@ == chars@.subrange(from as int, i as int),
        decreases to - i,
    {
        chars::push_char(&mut part, chars[i]);
        assert(part@ =~= chars@.subrange(from as int, i + 1));
        i = i + 1;
    }
    part
}

fn split_text(s: &str, separator: char) -> (parts: Vec<String>)
    ensures
        strings_view(parts@) == split(s@, separator),
{
    let chars = chars::chars_of(s);
    let mut parts: Vec<String> = Vec::new();
    let mut from: usize = 0;
    let mut to: usize = 0;
    assert(strings_view(parts@) + split(chars@, separator) =~= split(chars@, separator));
    while to < chars.len()
        invariant
            from <= to <= chars@.len(),
            chars@ == s@,
            strings_view(parts@) + split_from(chars@, separator, from as int, to as int) == split(
                chars@,
                separator,
            ),
        decreases chars.len() - to,
    {
        if chars[to] == separator {
            let ghost before = strings_view(parts@);
            let part = slice_chars(&chars, from, to);
            let ghost held = part@;
            parts.push(part);
            proof {
                let rest = split_from(chars@, separator, to + 1, to + 1);
                assert(strings_view(parts@) =~= before.push(held));
                assert(before.push(held) + rest =~= before + (seq![held] + rest));
            }
            to = to + 1;
            from = to;
        } else {
            to = to + 1;
        }
    }
    let ghost before = strings_view(parts@);
    let part = slice_chars(&chars, from, chars.len());
    let ghost held = part@;
    parts.push(part);
    proof {
        assert(strings_view(parts@) =~= before.push(held));
        assert(before.push(held) =~= before + seq![held]);
    }
    parts
}

fn join_text(parts: &Vec<String>, separator: char) -> (joined: String)
    requires
        parts@.len() > 0,
    ensures
        joined@ == join(strings_view(parts@), separator, parts@.len() as int),
{
    let ghost pv = strings_view(parts@);
    let mut joined = parts[0].clone();
    let mut n: usize = 1;
    while n < parts.len()
        invariant
            1 <= n <= parts@.len(),
            pv == strings_view(parts@),
            joined@ == join(pv, separator, n as int),
        decreases parts.len() - n,
    {
        chars::push_char(&mut joined, separator);
        text::push_text(&mut joined, parts[n].as_str());
        n = n + 1;
    }
    joined
}

fn replace_first_character_case(value: &str, upper: bool) -> (result: String)
    ensures
        result@ == with_first_case(value@, upper),
{
    let chars = chars::chars_of(value);
    if chars.len() == 0 {
        return String::new();
    }
    let mut result = if upper {
        chars::to_char_uppercase(chars[0])
    } else {
        chars::to_char_lowercase(chars[0])
    };
    let rest = slice_chars(&chars, 1, chars.len());
    assert(rest@ =~= value@.skip(1));
    text::push_text(&mut result, rest.as_str());
    result
}

fn separator_case_pattern(matched: &str, replacement: &str, separator: char) -> (result: Option<
    String,
>)
    ensures
        match result {
            Some(result) => case_by_parts(matched@, replacement@, separator) == Some(result@),
            None => case_by_parts(matched@, replacement@, separator) is None,
        },
    decreases matched@.len(), 0int,
{
    if !has_char(matched, separator) || !has_char(replacement, separator) {
        return None;
    }
    let from = split_text(matched, separator);
    let to = split_text(replacement, separator);
    assert(strings_view(from@).len() == from@.len());
    assert(strings_view(to@).len() == to@.len());
    if from.len() != to.len() {
        return None;
    }
    let ghost fv = strings_view(from@);
    let ghost tv = strings_view(to@);
    proof {
        lemma_split_len(matched@, separator, 0, 0);
        let k = choose|k: int| 0 <= k < matched@.len() && matched@[k] == separator;
        assert(matched@[k] == separator);
    }
    let mut parts: Vec<String> = Vec::new();
    assert(strings_view(parts@) =~= cased_parts(fv, tv, matched@.len(), 0));
    while parts.len() < from.len()
        invariant
            parts@.len() <= from@.len(),
            from@.len() == to@.len(),
            fv == strings_view(from@),
            tv == strings_view(to@),
            forall|i: int| #![trigger fv[i]] 0 <= i < fv.len() ==> fv[i].len() < matched@.len(),
            strings_view(parts@) == cased_parts(fv, tv, matched@.len(), parts@.len() as int),
        decreases from.len() - parts.len(),
    {
        let i: usize = parts.len();
        assert(fv[i as int] == from@[i as int]@ && tv[i as int] == to@[i as int]@);
        let ghost before = parts@;
        let part = preserve_replacement_case(from[i].as_str(), to[i].as_str());
        let ghost held = part@;
        parts.push(part);
        assert(strings_view(parts@) =~= strings_view(before).push(held));
    }
    Some(join_text(&parts, separator))
}

/// The replacement in the case of the match.
pub fn preserve_replacement_case(matched: &str, replacement: &str) -> (result: String)
    ensures
        result@ == preserved_case(matched@, replacement@),
    decreases matched@.len(), 1int,
{
    let first = chars::chars_of(matched);
    if first.len() == 0 || chars::chars_of(replacement).len() == 0 {
        return replacement.to_owned();
    }
    let hyphenated = separator_case_pattern(matched, replacement, '-');
    let underscored = separator_case_pattern(matched, replacement, '_');
    match (hyphenated, underscored) {
        (Some(value), None) => {
            return value;
        },
        (None, Some(value)) => {
            return value;
        },
        _ => {},
    }
    if chars::same_text(chars::to_uppercase(matched).as_str(), matched) {
        return chars::to_uppercase(replacement);
    }
    if chars::same_text(chars::to_lowercase(matched).as_str(), matched) {
        return chars::to_lowercase(replacement);
    }
    let mut single = String::new();
    chars::push_char(&mut single, first[0]);
    assert(single@ =~= seq![matched@[0]]);
    let upper = chars::same_text(
        chars::to_char_uppercase(first[0]).as_str(),
        single.as_str(),
    );
    let lower = chars::same_text(
        chars::to_char_lowercase(first[0]).as_str(),
        single.as_str(),
    );
    if upper && !lower {
        replace_first_character_case(replacement, true)
    } else if lower && !upper {
        replace_first_character_case(replacement, false)
    } else {
        replacement.to_owned()
    }
}

/// What is searched for.
#[derive(Clone, Debug)]
pub struct SearchQuery {
    pub pattern: String,
    pub case_insensitive: bool,
    pub regex: bool,
}

/// A query as plain values.
pub struct QueryModel {
    pub pattern: Seq<char>,
    pub case_insensitive: bool,
    pub regex: bool,
}

pub open spec fn query_model(query: Option<SearchQuery>) -> Option<QueryModel> {
    match query {
        Some(query) => Some(
            QueryModel {
                pattern: query.pattern@,
                case_insensitive: query.case_insensitive,
                regex: query.regex,
            },
        ),
        None => None,
    }
}

/// What `regex` finds of the pattern.
pub open spec fn regex_spans(pattern: Seq<char>, case_insensitive: bool, text: Seq<char>) -> Option<
    Seq<(int, int)>,
> {
    matching::regex_matches(
        pattern,
        case_insensitive,
        true,
        MAX_REGEX_COMPILED_BYTES,
        MAX_REGEX_COMPILED_BYTES,
        text,
    )
}

/// What the query finds in the text.
pub open spec fn found_spans(text: Seq<char>, query: Option<QueryModel>) -> Seq<(int, int)> {
    match query {
        None => Seq::empty(),
        Some(query) => if query.regex {
            match regex_spans(query.pattern, query.case_insensitive, text) {
                Some(spans) => spans,
                None => Seq::empty(),
            }
        } else {
            matching::literal_matches(
                encode_utf8(text),
                encode_utf8(query.pattern),
                query.case_insensitive,
                0,
            )
        },
    }
}

/// Of the first `n` spans, those that are whole words where that is asked.
pub open spec fn kept_spans(t: Seq<u8>, spans: Seq<(int, int)>, whole_word: bool, n: int) -> Seq<
    (int, int),
>
    decreases n,
{
    if n <= 0 {
        Seq::empty()
    } else {
        let before = kept_spans(t, spans, whole_word, n - 1);
        if whole_word && !is_whole_word(t, spans[n - 1]) {
            before
        } else {
            before.push(spans[n - 1])
        }
    }
}

/// The spans of which all that count as matches remain.
pub open spec fn counted_spans(text: Seq<char>, spans: Seq<(int, int)>, whole_word: bool) -> Seq<
    (int, int),
> {
    kept_spans(encode_utf8(text), spans, whole_word, spans.len() as int)
}

/// The current match once there are `count` of them: the first, or while
/// replacing the same one as far as there is one.
pub open spec fn current_after(current: int, count: int, replacing: bool) -> int {
    if !replacing || count == 0 {
        0
    } else if current < count {
        current
    } else {
        count - 1
    }
}

/// The spans that count as matches.
pub fn keep_spans(text: &str, spans: &Vec<(usize, usize)>, whole_word: bool) -> (ranges: Vec<
    Range<usize>,
>)
    requires
        matching::spans_wf(encode_utf8(text@), matching::spans_view(spans@)),
    ensures
        text::ranges_view(ranges@) == counted_spans(
            text@,
            matching::spans_view(spans@),
            whole_word,
        ),
{
    let ghost t = encode_utf8(text@);
    let ghost sv = matching::spans_view(spans@);
    let mut ranges: Vec<Range<usize>> = Vec::new();
    let mut n: usize = 0;
    assert(text::ranges_view(ranges@) =~= kept_spans(t, sv, whole_word, 0));
    while n < spans.len()
        invariant
            n <= spans@.len(),
            t == encode_utf8(text@),
            sv == matching::spans_view(spans@),
            matching::spans_wf(t, sv),
            text::ranges_view(ranges@) == kept_spans(t, sv, whole_word, n as int),
        decreases spans.len() - n,
    {
        let span = spans[n];
        assert(sv[n as int] == (span.0 as int, span.1 as int));
        if !whole_word || is_whole_word_match(text, span.0, span.1) {
            let ghost held = ranges@;
            ranges.push(span.0..span.1);
            assert(text::ranges_view(ranges@) =~= text::ranges_view(held).push((span.0 as int, span.1 as int)));
        }
        n = n + 1;
    }
    ranges
}

/// The matches of a query in the text, and which of them is current.
#[derive(Clone, Debug)]
pub struct SearchMatcher {
    pub text: String,
    pub query: Option<SearchQuery>,
    pub whole_word: bool,
    pub query_error: bool,
    pub matched_ranges: Vec<Range<usize>>,
    pub current_match_ix: usize,
    /// While replacing, the next update keeps the current match where it can.
    pub replacing: bool,
}

/// The index after `current`, from the start again after the last.
pub open spec fn next_index(count: int, current: int) -> int {
    if current < count - 1 {
        current + 1
    } else {
        0
    }
}

/// The index before `current`, from the end again before the first.
pub open spec fn previous_index(count: int, current: int) -> int {
    if current == 0 {
        count - 1
    } else {
        current - 1
    }
}

/// A replacement of the current match, and where the search goes on.
pub struct SearchReplacement {
    pub range: Range<usize>,
    pub text: String,
    pub next_range: Range<usize>,
    pub direction: Option<MoveDirection>,
}

/// The direction in which to scroll.
#[derive(Debug, Copy, Clone, PartialEq, Eq, Structural)]
pub enum MoveDirection {
    Up,
    Down,
}

/// Down, unless the search has wrapped.
pub fn next_scroll_direction(previous_match_ix: usize, current_match_ix: usize) -> (direction: Option<
    MoveDirection,
>)
    ensures
        direction == (if current_match_ix <= previous_match_ix {
            None
        } else {
            Some(MoveDirection::Down)
        }),
{
    if current_match_ix <= previous_match_ix {
        None
    } else {
        Some(MoveDirection::Down)
    }
}

/// Up, unless the search has wrapped.
pub fn prev_scroll_direction(previous_match_ix: usize, current_match_ix: usize) -> (direction: Option<
    MoveDirection,
>)
    ensures
        direction == (if current_match_ix >= previous_match_ix {
            None
        } else {
            Some(MoveDirection::Up)
        }),
{
    if current_match_ix >= previous_match_ix {
        None
    } else {
        Some(MoveDirection::Up)
    }
}

/// The match behind which an offset does not lie, or the last one.
pub open spec fn match_from(ranges: Seq<(int, int)>, offset: int, from: int) -> int
    decreases ranges.len() - from,
{
    if from < 0 || from + 1 >= ranges.len() || ranges[from].1 >= offset {
        from
    } else {
        match_from(ranges, offset, from + 1)
    }
}

/// Whether the ranges are ranges of the text on boundaries.
pub open spec fn all_readable(t: Seq<u8>, ranges: Seq<(int, int)>) -> bool {
    forall|i: int|
        #![trigger ranges[i]]
        0 <= i < ranges.len() ==> 0 <= ranges[i].0 <= ranges[i].1 <= t.len() && text::is_boundary(
            t,
            ranges[i].0,
        ) && text::is_boundary(t, ranges[i].1)
}

/// The replacement of one match before its case is looked at: for a regular
/// expression with the groups of the match filled in.
pub open spec fn expanded_replacement(
    text: Seq<char>,
    query: Option<QueryModel>,
    range: (int, int),
    replacement: Seq<char>,
) -> Seq<char> {
    match query {
        Some(query) => if query.regex {
            match matching::regex_expansion(
                query.pattern,
                query.case_insensitive,
                true,
                MAX_REGEX_COMPILED_BYTES,
                MAX_REGEX_COMPILED_BYTES,
                text,
                range.0 as usize,
                regex_replacement(replacement, 0),
            ) {
                Some((start, end, expanded)) => if (start, end) == range {
                    expanded
                } else {
                    replacement
                },
                None => replacement,
            }
        } else {
            replacement
        },
        None => replacement,
    }
}

/// Whether the case of the match is kept: not where the replacement names
/// groups of a regular expression.
pub open spec fn keeps_case(
    query: Option<QueryModel>,
    replacement: Seq<char>,
    preserve_case: bool,
) -> bool {
    preserve_case && !(query is Some && (query->Some_0).regex && uses_capture(replacement, 0))
}

/// What replaces one match.
pub open spec fn replacement_for(
    text: Seq<char>,
    query: Option<QueryModel>,
    range: (int, int),
    replacement: Seq<char>,
    preserve_case: bool,
) -> Seq<char> {
    let expanded = expanded_replacement(text, query, range, replacement);
    if keeps_case(query, replacement, preserve_case) {
        preserved_case(decode_utf8(encode_utf8(text).subrange(range.0, range.1)), expanded)
    } else {
        expanded
    }
}

pub open spec fn replacements(
    text: Seq<char>,
    query: Option<QueryModel>,
    ranges: Seq<(int, int)>,
    replacement: Seq<char>,
    preserve_case: bool,
) -> Seq<Seq<char>> {
    Seq::new(
        ranges.len(),
        |i: int| replacement_for(text, query, ranges[i], replacement, preserve_case),
    )
}

impl SearchMatcher {
    pub open spec fn ranges(&self) -> Seq<(int, int)> {
        text::ranges_view(self.matched_ranges@)
    }

    pub fn new() -> (matcher: Self)
        ensures
            matcher.text@.len() == 0,
            matcher.query is None,
            !matcher.whole_word,
            !matcher.query_error,
            matcher.ranges().len() == 0,
            matcher.current_match_ix == 0,
            !matcher.replacing,
    {
        SearchMatcher {
            text: String::new(),
            query: None,
            whole_word: false,
            query_error: false,
            matched_ranges: Vec::new(),
            current_match_ix: 0,
            replacing: false,
        }
    }

    /// Update source text and re-match
    pub fn update(&mut self, text: &Rope)
        requires
            literal_fits(query_model(old(self).query)),
        ensures
            if old(self).text@ == rope::rope_chars(*text) {
                *final(self) == *old(self)
            } else {
                final(self).text@ == rope::rope_chars(*text) && final(self).query
                    == old(self).query && final(self).whole_word == old(self).whole_word
                    && final(self).query_error == old(self).query_error && final(
                    self).is_matched(*old(self))
            },
    {
        let next = rope::rope_to_string(text);
        if chars::same_text(self.text.as_str(), next.as_str()) {
            return;
        }
        self.text = next;
        self.update_matches();
    }

    /// The matches are those of the query in the text; the current one
    /// follows from that of `before`.
    pub open spec fn is_matched(&self, before: SearchMatcher) -> bool {
        &&& self.ranges() == counted_spans(
            self.text@,
            found_spans(self.text@, query_model(self.query)),
            self.whole_word,
        )
        &&& self.current_match_ix == current_after(
            before.current_match_ix as int,
            self.ranges().len() as int,
            before.replacing,
        )
        &&& !self.replacing
    }

    fn update_matches(&mut self)
        requires
            literal_fits(query_model(old(self).query)),
        ensures
            final(self).is_matched(*old(self)),
            final(self).text == old(self).text,
            final(self).query == old(self).query,
            final(self).whole_word == old(self).whole_word,
            final(self).query_error == old(self).query_error,
    {
        let ghost model = query_model(self.query);
        let spans: Vec<(usize, usize)> = match &self.query {
            None => Vec::new(),
            Some(query) => {
                if query.regex {
                    match matching::find_regex(
                        query.pattern.as_str(),
                        query.case_insensitive,
                        true,
                        MAX_REGEX_COMPILED_BYTES,
                        MAX_REGEX_COMPILED_BYTES,
                        self.text.as_str(),
                    ) {
                        Some(spans) => spans,
                        None => Vec::new(),
                    }
                } else {
                    proof {
                        encode_utf8_valid_utf8(self.text@);
                        encode_utf8_valid_utf8(query.pattern@);
                        matching::lemma_literal_matches(
                            encode_utf8(self.text@),
                            encode_utf8(query.pattern@),
                            query.case_insensitive,
                            0,
                        );
                    }
                    if query.pattern.as_str().as_bytes().len() == 0 {
                        let none: Vec<(usize, usize)> = Vec::new();
                        assert(matching::spans_view(none@) =~= matching::literal_matches(
                            encode_utf8(self.text@),
                            encode_utf8(query.pattern@),
                            query.case_insensitive,
                            0,
                        ));
                        none
                    } else {
                        matching::find_literal(
                            query.pattern.as_str(),
                            query.case_insensitive,
                            self.text.as_str(),
                        )
                    }
                }
            },
        };
        proof {
            let sv = matching::spans_view(spans@);
            assert(sv =~= found_spans(self.text@, model));
        }
        self.matched_ranges = keep_spans(self.text.as_str(), &spans, self.whole_word);
        let count: usize = self.matched_ranges.len();
        assert(self.ranges().len() == count);
        if !self.replacing || count == 0 {
            self.current_match_ix = 0;
        } else if self.current_match_ix >= count {
            self.current_match_ix = count - 1;
        }
        self.replacing = false;
    }

    /// Update the search query and reset the current match index.
    pub fn update_query(&mut self, query: &str, case_insensitive: bool)
        requires
            encode_utf8(query@).len() < 0x1000_0000,
        ensures
            final(self).is_queried(*old(self), query@, case_insensitive, false, false),
    {
        self.update_query_with_options(query, case_insensitive, false, false);
    }

    /// What setting the query does. A regular expression that is too long or
    /// does not compile is an error and finds nothing.
    pub open spec fn is_queried(
        &self,
        before: SearchMatcher,
        query: Seq<char>,
        case_insensitive: bool,
        whole_word: bool,
        regex_mode: bool,
    ) -> bool {
        let refused = regex_mode && query.len() > 0 && (encode_utf8(query).len()
            > MAX_REGEX_QUERY_BYTES || regex_spans(query, case_insensitive, before.text@) is None);
        &&& self.text == before.text
        &&& self.whole_word == whole_word
        &&& self.query_error == refused
        &&& query_model(self.query) == if query.len() == 0 || refused {
            None
        } else {
            Some(QueryModel { pattern: query, case_insensitive, regex: regex_mode })
        }
        &&& self.is_matched(before)
    }

    pub fn update_query_with_options(
        &mut self,
        query: &str,
        case_insensitive: bool,
        whole_word: bool,
        regex_mode: bool,
    )
        requires
            regex_mode || encode_utf8(query@).len() < 0x1000_0000,
        ensures
            final(self).is_queried(
                *old(self),
                query@,
                case_insensitive,
                whole_word,
                regex_mode,
            ),
    {
        self.query = None;
        self.whole_word = whole_word;
        self.query_error = false;
        let size: usize = query.as_bytes().len();
        proof {
            if query@.len() == 0 {
                assert(query@ =~= Seq::<char>::empty());
                assert(encode_utf8(query@) =~= Seq::<u8>::empty());
            } else if encode_utf8(query@).len() == 0 {
                encode_utf8_decode_utf8(query@);
                encode_utf8_decode_utf8(Seq::empty());
                assert(encode_utf8(Seq::<char>::empty()) =~= Seq::<u8>::empty());
                assert(encode_utf8(query@) =~= Seq::<u8>::empty());
            }
        }
        if size > 0 {
            if regex_mode && (size > MAX_REGEX_QUERY_BYTES || matching::find_regex(
                query,
                case_insensitive,
                true,
                MAX_REGEX_COMPILED_BYTES,
                MAX_REGEX_COMPILED_BYTES,
                self.text.as_str(),
            ).is_none()) {
                self.query_error = true;
            } else {
                self.query = Some(
                    SearchQuery { pattern: query.to_owned(), case_insensitive, regex: regex_mode },
                );
            }
        }
        self.update_matches();
    }

    pub fn has_query_error(&self) -> (error: bool)
        ensures
            error == self.query_error,
    {
        self.query_error
    }

    /// What replaces each of the matches.
    pub fn replacement_texts(
        &self,
        ranges: &[Range<usize>],
        replacement: &str,
        preserve_case: bool,
    ) -> (texts: Vec<String>)
        requires
            all_readable(encode_utf8(self.text@), text::ranges_view(ranges@)),
        ensures
            strings_view(texts@) == replacements(
                self.text@,
                query_model(self.query),
                text::ranges_view(ranges@),
                replacement@,
                preserve_case,
            ),
    {
        let ghost rv = text::ranges_view(ranges@);
        let ghost model = query_model(self.query);
        let ghost expected = replacements(self.text@, model, rv, replacement@, preserve_case);
        let is_regex = match &self.query {
            Some(query) => query.regex,
            None => false,
        };
        let keep = preserve_case && !(is_regex && replacement_uses_capture(replacement));
        let template = normalize_regex_replacement(replacement);
        let mut texts: Vec<String> = Vec::new();
        while texts.len() < ranges.len()
            invariant
                texts@.len() <= ranges@.len(),
                rv == text::ranges_view(ranges@),
                model == query_model(self.query),
                all_readable(encode_utf8(self.text@), rv),
                expected == replacements(self.text@, model, rv, replacement@, preserve_case),
                keep == keeps_case(model, replacement@, preserve_case),
                template@ == regex_replacement(replacement@, 0),
                forall|k: int| 0 <= k < texts@.len() ==> (#[trigger] texts@[k])@ == expected[k],
            decreases ranges.len() - texts.len(),
        {
            let i: usize = texts.len();
            let start: usize = ranges[i].start;
            let end: usize = ranges[i].end;
            assert(rv[i as int] == (start as int, end as int));
            let mut expanded = replacement.to_owned();
            match &self.query {
                Some(query) => {
                    if query.regex {
                        match matching::expand_regex(
                            query.pattern.as_str(),
                            query.case_insensitive,
                            true,
                            (MAX_REGEX_COMPILED_BYTES, MAX_REGEX_COMPILED_BYTES),
                            self.text.as_str(),
                            start,
                            template.as_str(),
                        ) {
                            Some((from, to, text)) => {
                                if from == start && to == end {
                                    expanded = text;
                                }
                            },
                            None => {},
                        }
                    }
                },
                None => {},
            }
            assert(expanded@ == expanded_replacement(
                self.text@,
                model,
                rv[i as int],
                replacement@,
            ));
            if keep {
                let matched = text::slice_text(self.text.as_str(), start, end);
                proof {
                    encode_utf8_decode_utf8(matched@);
                }
                texts.push(preserve_replacement_case(matched.as_str(), expanded.as_str()));
            } else {
                texts.push(expanded);
            }
        }
        assert(strings_view(texts@) =~= expected);
        texts
    }

    /// Returns the number of matches found.
    pub fn len(&self) -> (count: usize)
        ensures
            count == self.ranges().len(),
    {
        self.matched_ranges.len()
    }

    /// The match after the current one, from the start again after the last.
    pub open spec fn spec_next_ix(&self) -> Option<int> {
        if self.ranges().len() == 0 {
            None
        } else {
            Some(next_index(self.ranges().len() as int, self.current_match_ix as int))
        }
    }

    pub fn next_ix(&self) -> (next: Option<usize>)
        ensures
            match next {
                Some(next) => self.spec_next_ix() == Some(next as int) && next
                    < self.ranges().len(),
                None => self.spec_next_ix() is None,
            },
    {
        let count: usize = self.matched_ranges.len();
        if count == 0 {
            None
        } else if self.current_match_ix < count - 1 {
            Some(self.current_match_ix + 1)
        } else {
            Some(0)
        }
    }

    /// The match after the current one.
    pub fn peek(&self) -> (range: Option<Range<usize>>)
        ensures
            match range {
                Some(range) => self.spec_next_ix() is Some && self.ranges()[self.spec_next_ix()->Some_0]
                    == (range.start as int, range.end as int),
                None => self.spec_next_ix() is None,
            },
    {
        match self.next_ix() {
            Some(next) => Some(
                self.matched_ranges[next].start..self.matched_ranges[next].end,
            ),
            None => None,
        }
    }

    /// Goes to the match after the current one, from the start again after the last.
    pub fn next(&mut self) -> (range: Option<Range<usize>>)
        ensures
            match old(self).spec_next_ix() {
                Some(next) => *final(self) == (SearchMatcher {
                    current_match_ix: next as usize,
                    ..*old(self)
                }) && range is Some && old(self).ranges()[next] == (
                    (range->Some_0).start as int,
                    (range->Some_0).end as int,
                ),
                None => range is None && *final(self) == *old(self),
            },
    {
        match self.next_ix() {
            Some(next) => {
                self.current_match_ix = next;
                Some(self.matched_ranges[next].start..self.matched_ranges[next].end)
            },
            None => None,
        }
    }

    /// Goes to the match before the current one, from the end again before the
    /// first.
    pub fn next_back(&mut self) -> (range: Option<Range<usize>>)
        requires
            old(self).current_match_ix <= old(self).ranges().len(),
        ensures
            if old(self).ranges().len() == 0 {
                range is None && *final(self) == *old(self)
            } else {
                let previous = previous_index(
                    old(self).ranges().len() as int,
                    old(self).current_match_ix as int,
                );
                *final(self) == (SearchMatcher {
                    current_match_ix: previous as usize,
                    ..*old(self)
                }) && range is Some && old(self).ranges()[previous] == (
                    (range->Some_0).start as int,
                    (range->Some_0).end as int,
                )
            },
    {
        let count: usize = self.matched_ranges.len();
        assert(self.ranges().len() == count);
        if count == 0 {
            return None;
        }
        let previous: usize = if self.current_match_ix == 0 {
            count - 1
        } else {
            self.current_match_ix - 1
        };
        self.current_match_ix = previous;
        Some(self.matched_ranges[previous].start..self.matched_ranges[previous].end)
    }

    /// The number of the current match and of all matches, to show.
    pub fn label(&self) -> (label: String)
        requires
            self.current_match_ix < usize::MAX,
        ensures
            label@ == (if self.query_error {
                "Invalid regex"@
            } else if self.ranges().len() == 0 {
                "0/0"@
            } else {
                chars::decimal(self.current_match_ix + 1) + "/"@ + chars::decimal(
                    self.ranges().len() as int,
                )
            }),
    {
        if self.query_error {
            return "Invalid regex".to_owned();
        }
        if self.matched_ranges.len() == 0 {
            return "0/0".to_owned();
        }
        let mut label = chars::to_decimal(self.current_match_ix + 1);
        text::push_text(&mut label, "/");
        let count = chars::to_decimal(self.matched_ranges.len());
        text::push_text(&mut label, count.as_str());
        label
    }

    /// Update the current match index based on the given offset.
    pub fn update_cursor_by_offset(&mut self, offset: usize)
        ensures
            *final(self) == (SearchMatcher {
                current_match_ix: if old(self).ranges().len() == 0 {
                    old(self).current_match_ix
                } else {
                    match_from(old(self).ranges(), offset as int, 0) as usize
                },
                ..*old(self)
            }),
    {
        let ghost rv = self.ranges();
        if self.matched_ranges.len() == 0 {
            return;
        }
        let mut ix: usize = 0;
        while ix < self.matched_ranges.len() - 1 && self.matched_ranges[ix].end < offset
            invariant
                *self == *old(self),
                rv == self.ranges(),
                ix < self.matched_ranges@.len(),
                match_from(rv, offset as int, 0) == match_from(rv, offset as int, ix as int),
            decreases self.matched_ranges.len() - ix,
        {
            assert(rv[ix as int].1 == self.matched_ranges@[ix as int].end);
            ix = ix + 1;
        }
        assert(rv[ix as int].1 == self.matched_ranges@[ix as int].end);
        self.current_match_ix = ix;
    }

    /// Replaces the current match: what to put in its place, and the match at
    /// which the search goes on.
    pub fn replace_next(&mut self, replacement: &str, preserve_case: bool) -> (planned: Option<
        SearchReplacement,
    >)
        requires
            all_readable(encode_utf8(old(self).text@), old(self).ranges()),
        ensures
            match planned {
                Some(planned) => {
                    let current = old(self).current_match_ix as int;
                    let ranges = old(self).ranges();
                    let next = old(self).spec_next_ix()->Some_0;
                    &&& current < ranges.len()
                    &&& (planned.range.start as int, planned.range.end as int) == ranges[current]
                    &&& planned.text@ == replacement_for(
                        old(self).text@,
                        query_model(old(self).query),
                        ranges[current],
                        replacement@,
                        preserve_case,
                    )
                    &&& (planned.next_range.start as int, planned.next_range.end as int)
                        == ranges[next]
                    &&& planned.direction == (if next <= current {
                        None
                    } else {
                        Some(MoveDirection::Down)
                    })
                    &&& *final(self) == (SearchMatcher {
                        replacing: true,
                        current_match_ix: next as usize,
                        ..*old(self)
                    })
                },
                None => old(self).current_match_ix >= old(self).ranges().len() && *final(self) == (
                SearchMatcher { replacing: true, ..*old(self) }),
            },
    {
        self.replacing = true;
        let current: usize = self.current_match_ix;
        if current >= self.matched_ranges.len() {
            return None;
        }
        let ghost rv = self.ranges();
        assert(rv == old(self).ranges());
        let range = self.matched_ranges[current].start..self.matched_ranges[current].end;
        let mut single: Vec<Range<usize>> = Vec::new();
        single.push(self.matched_ranges[current].start..self.matched_ranges[current].end);
        assert(text::ranges_view(single@) =~= seq![rv[current as int]]);
        let mut texts = self.replacement_texts(single.as_slice(), replacement, preserve_case);
        assert(strings_view(texts@).len() == texts@.len());
        let text = texts.remove(0);
        proof {
            assert(text@ == replacements(
                self.text@,
                query_model(self.query),
                seq![rv[current as int]],
                replacement@,
                preserve_case,
            )[0]);
        }
        match self.next_ix() {
            Some(next) => {
                let next_range = self.matched_ranges[next].start..self.matched_ranges[next].end;
                self.current_match_ix = next;
                let direction = next_scroll_direction(current, next);
                Some(SearchReplacement { range, text, next_range, direction })
            },
            None => None,
        }
    }

    /// Replaces every match: the new text, or `None` where there is no match.
    pub fn replace_all(&mut self, replacement: &str, preserve_case: bool) -> (replaced: Option<
        String,
    >)
        requires
            matching::spans_wf(encode_utf8(old(self).text@), old(self).ranges()),
        ensures
            *final(self) == (SearchMatcher { replacing: true, ..*old(self) }),
            match replaced {
                Some(replaced) => old(self).ranges().len() > 0 && encode_utf8(replaced@)
                    == edit::applied(
                    encode_utf8(old(self).text@),
                    replacement_edits(
                        old(self).ranges(),
                        replacements(
                            old(self).text@,
                            query_model(old(self).query),
                            old(self).ranges(),
                            replacement@,
                            preserve_case,
                        ),
                    ),
                ),
                None => old(self).ranges().len() == 0,
            },
    {
        self.replacing = true;
        let ghost rv = self.ranges();
        assert(rv == old(self).ranges());
        if self.matched_ranges.len() == 0 {
            return None;
        }
        let texts = self.replacement_texts(
            self.matched_ranges.as_slice(),
            replacement,
            preserve_case,
        );
        assert(strings_view(texts@).len() == texts@.len());
        Some(splice(self.text.as_str(), &self.matched_ranges, &texts))
    }
}

/// A literal pattern is not too long to be looked for.
pub open spec fn literal_fits(query: Option<QueryModel>) -> bool {
    query matches Some(query) ==> !query.regex ==> encode_utf8(query.pattern).len() < 0x1000_0000
}

pub open spec fn replacement_edits(
    ranges: Seq<(int, int)>,
    texts: Seq<Seq<char>>,
) -> Seq<(int, int, Seq<u8>)> {
    Seq::new(ranges.len(), |i: int| (ranges[i].0, ranges[i].1, encode_utf8(texts[i])))
}

/// The text up to the end of edit `n - 1`, with the first `n` edits made.
spec fn spliced(t: Seq<u8>, edits: Seq<(int, int, Seq<u8>)>, n: int) -> Seq<u8>
    decreases n,
{
    if n <= 0 {
        Seq::empty()
    } else {
        spliced(t, edits, n - 1) + t.subrange(
            if n == 1 {
                0
            } else {
                edits[n - 2].1
            },
            edits[n - 1].0,
        ) + edits[n - 1].2
    }
}

/// Making the edits from the last to the first gives the same text as copying
/// it from the first to the last.
proof fn lemma_applied_is_spliced(t: Seq<u8>, edits: Seq<(int, int, Seq<u8>)>, n: int, tail: Seq<u8>)
    requires
        0 <= n <= edits.len(),
        edit::edits_ordered(edits, t.len() as int),
    ensures
        edit::applied(
            t.subrange(
                0,
                if n == 0 {
                    0
                } else {
                    edits[n - 1].1
                },
            ) + tail,
            edits.take(n),
        ) == spliced(t, edits, n) + tail,
    decreases n,
{
    if n == 0 {
        assert(edits.take(0) =~= Seq::empty());
        assert(t.subrange(0, 0) + tail =~= tail);
        assert(spliced(t, edits, 0) + tail =~= tail);
    } else {
        let e = edits[n - 1];
        let before = if n == 1 {
            0
        } else {
            edits[n - 2].1
        };
        if n > 1 {
            assert(edits[n - 2].1 <= edits[n - 1].0);
        }
        let cur = t.subrange(0, e.1) + tail;
        assert(edits.take(n).last() == e);
        assert(edits.take(n).drop_last() =~= edits.take(n - 1));
        let next = edit::replaced(cur, e);
        let rest = t.subrange(before, e.0) + e.2 + tail;
        assert(next =~= t.subrange(0, before) + rest);
        lemma_applied_is_spliced(t, edits, n - 1, rest);
        assert(spliced(t, edits, n) + tail =~= spliced(t, edits, n - 1) + rest);
    }
}

/// The text with the texts in place of the ranges.
fn splice(text: &str, ranges: &Vec<Range<usize>>, texts: &Vec<String>) -> (result: String)
    requires
        ranges@.len() > 0,
        texts@.len() == ranges@.len(),
        matching::spans_wf(encode_utf8(text@), text::ranges_view(ranges@)),
    ensures
        encode_utf8(result@) == edit::applied(
            encode_utf8(text@),
            replacement_edits(text::ranges_view(ranges@), strings_view(texts@)),
        ),
{
    let ghost t = encode_utf8(text@);
    let ghost rv = text::ranges_view(ranges@);
    let ghost edits = replacement_edits(rv, strings_view(texts@));
    proof {
        assert forall|i: int| #![trigger edits[i]] 0 <= i < edits.len() implies 0 <= edits[i].0
            <= edits[i].1 <= t.len() by {
            assert(rv[i].0 <= rv[i].1);
        }
        assert forall|i: int, j: int| #![trigger edits[i], edits[j]] 0 <= i < j < edits.len() implies edits[i].1
            <= edits[j].0 by {
            assert(rv[i].1 <= rv[j].0);
        }
    }
    let mut result = String::new();
    let mut copied: usize = 0;
    let mut n: usize = 0;
    assert(encode_utf8(Seq::<char>::empty()) =~= Seq::<u8>::empty());
    while n < ranges.len()
        invariant
            n <= ranges@.len(),
            texts@.len() == ranges@.len(),
            t == encode_utf8(text@),
            rv == text::ranges_view(ranges@),
            matching::spans_wf(t, rv),
            edits == replacement_edits(rv, strings_view(texts@)),
            edit::edits_ordered(edits, t.len() as int),
            copied <= t.len(),
            text::is_boundary(t, copied as int),
            copied == (if n == 0 {
                0
            } else {
                edits[n - 1].1
            }),
            encode_utf8(result@) == spliced(t, edits, n as int),
        decreases ranges.len() - n,
    {
        proof {
            assert(rv[n as int] == (ranges@[n as int].start as int, ranges@[n as int].end as int));
            assert(edits[n as int].0 == rv[n as int].0);
            if n > 0 {
                assert(edits[n - 1].1 <= edits[n as int].0);
            }
        }
        let part = text::slice_text(text, copied, ranges[n].start);
        text::push_text(&mut result, part.as_str());
        text::push_text(&mut result, texts[n].as_str());
        copied = ranges[n].end;
        n = n + 1;
        assert(encode_utf8(result@) =~= spliced(t, edits, n as int));
    }
    let tail = text::slice_text(text, copied, text.as_bytes().len());
    text::push_text(&mut result, tail.as_str());
    proof {
        let k = edits.len() as int;
        lemma_applied_is_spliced(t, edits, k, t.subrange(copied as int, t.len() as int));
        assert(edits.take(k) =~= edits);
        assert(t.subrange(0, copied as int) + t.subrange(copied as int, t.len() as int) =~= t);
    }
    result
}

/// Going to the next match and back, or back and on again, ends where it began.
pub proof fn law_next_and_back(count: int, current: int)
    requires
        0 <= current < count,
    ensures
        previous_index(count, next_index(count, current)) == current,
        next_index(count, previous_index(count, current)) == current,
        0 <= next_index(count, current) < count,
        0 <= previous_index(count, current) < count,
{
}

} // verus!
