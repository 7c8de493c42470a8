//! Linked editing: ranges of the text that are edited together.

use crate::chars;
use crate::cursor::Position;
use crate::edit;
use crate::line_operations as lines;
use crate::lsp::code_lens::copy_optional;
use crate::lsp::items;
use crate::lsp::position::{exact_offset, offset_position, TextRange};
use crate::lsp::{bump, next_generation, Lsp};
use crate::matching;
use crate::order;
use crate::rope;
use crate::snippet_state;
use crate::snippet_variables::optional_view;
use crate::state::InputState;
use crate::text;
use crate::text::Document;
use ropey::Rope;
use std::ops::Range;
use vstd::prelude::*;
use vstd::utf8::*;

verus! {

pub const MAX_LINKED_EDITING_RANGES: usize = 256;

pub const MAX_LINKED_EDITING_RANGE_BYTES: usize = 65_536;

pub const MAX_LINKED_EDITING_PATTERN_BYTES: usize = 4_096;

/// The limit that `regex` sets by itself on the size of a compiled pattern.
pub const PATTERN_SIZE_LIMIT: usize = 10_485_760;

/// The limit that `regex` sets by itself on its cache while it searches.
pub const PATTERN_CACHE_LIMIT: usize = 2_097_152;

/// The reply of a server: ranges, and the pattern that their text keeps to.
#[derive(Debug, Clone, PartialEq, Eq)]
pub struct LinkedEditingRanges {
    pub ranges: Vec<TextRange>,
    pub word_pattern: Option<String>,
}

/// Editor state for diagnostics and automation.
#[derive(Debug, Clone, PartialEq, Eq)]
pub struct LinkedEditingSnapshot {
    pub ranges: Vec<TextRange>,
    pub word_pattern: Option<String>,
    pub pending: bool,
}

/// Linked ranges, the one with the cursor first, with the pattern of the server
/// where it has one that can be used, and the pattern that is used.
#[derive(Debug)]
pub struct ValidatedLinkedEditingRanges {
    pub ranges: Vec<Range<usize>>,
    pub word_pattern: Option<String>,
    pub regex: String,
}

/// A request for the ranges that are linked at the cursor.
#[derive(Debug, Clone, Copy, PartialEq, Eq, Structural)]
pub struct LinkedEditingRequest {
    pub generation: u64,
    pub cursor: usize,
    pub position: Position,
    /// The request is sent without a delay.
    pub immediate: bool,
}

/// The pattern that is used where the server gives none that can be used:
/// letters, marks, numbers and some punctuation.
pub open spec fn default_pattern() -> Seq<char> {
    "^[\\p{L}\\p{M}\\p{N}_$:\\.\\-]*$"@
}

fn default_pattern_text() -> (pattern: String)
    ensures
        pattern@ == default_pattern(),
{
    "^[\\p{L}\\p{M}\\p{N}_$:\\.\\-]*$".to_owned()
}

/// What the pattern matches in the value, where it can be used.
pub open spec fn pattern_matches(pattern: Seq<char>, value: Seq<char>) -> Option<Seq<(int, int)>> {
    matching::regex_matches(
        pattern,
        false,
        false,
        PATTERN_SIZE_LIMIT,
        PATTERN_CACHE_LIMIT,
        value,
    )
}

/// The first match is the whole value.
pub open spec fn is_whole(found: Option<Seq<(int, int)>>, len: int) -> bool {
    match found {
        Some(spans) => spans.len() > 0 && spans[0] == (0int, len),
        None => false,
    }
}

/// The first match of the pattern is the whole value.
pub open spec fn matches_whole(pattern: Seq<char>, value: Seq<char>) -> bool {
    is_whole(pattern_matches(pattern, value), chars::byte_len(value))
}

/// The first match of the pattern is the whole value.
pub fn regex_matches_entire_value(pattern: &str, value: &str) -> (whole: bool)
    ensures
        whole == matches_whole(pattern@, value@),
{
    let found = matching::find_regex(
        pattern,
        false,
        false,
        PATTERN_SIZE_LIMIT,
        PATTERN_CACHE_LIMIT,
        value,
    );
    is_entire_match(&found, value.as_bytes().len())
}

/// Whether the first of the matches reaches from the start to `len`.
pub fn is_entire_match(found: &Option<Vec<(usize, usize)>>, len: usize) -> (whole: bool)
    ensures
        whole == match found {
            Some(spans) => is_whole(Some(matching::spans_view(spans@)), len as int),
            None => is_whole(None, len as int),
        },
{
    match found {
        Some(spans) => {
            if spans.len() == 0 {
                return false;
            }
            assert(matching::spans_view(spans@)[0] == (spans@[0].0 as int, spans@[0].1 as int));
            spans[0].0 == 0 && spans[0].1 == len
        },
        None => false,
    }
}

/// The pattern of the server where it is short enough and can be used, and the
/// pattern that is used.
pub open spec fn chosen_pattern(pattern: Option<Seq<char>>, usable: bool) -> (
    Option<Seq<char>>,
    Seq<char>,
) {
    match pattern {
        Some(source) => if chars::byte_len(source) <= MAX_LINKED_EDITING_PATTERN_BYTES && usable {
            (Some(source), source)
        } else {
            (None, default_pattern())
        },
        None => (None, default_pattern()),
    }
}

/// The pattern of the server where it is short enough and can be used, and the
/// pattern that is used.
pub fn choose_word_pattern(pattern: Option<String>, usable: bool) -> (chosen: (
    Option<String>,
    String,
))
    ensures
        (optional_view(chosen.0), chosen.1@) == chosen_pattern(optional_view(pattern), usable),
{
    match pattern {
        Some(source) => {
            if usable && source.as_str().as_bytes().len() <= MAX_LINKED_EDITING_PATTERN_BYTES {
                let used = source.clone();
                return (Some(source), used);
            }
            (None, default_pattern_text())
        },
        None => (None, default_pattern_text()),
    }
}

/// The offsets of the first `n` ranges, if the text has their ends and none is
/// empty or too long.
pub open spec fn exact_spans(t: Seq<u8>, ranges: Seq<TextRange>, n: int) -> Option<Seq<(int, int)>>
    decreases n,
{
    if n <= 0 {
        Some(Seq::empty())
    } else {
        match exact_spans(t, ranges, n - 1) {
            Some(before) => match (
                exact_offset(t, ranges[n - 1].start),
                exact_offset(t, ranges[n - 1].end),
            ) {
                (Some(start), Some(end)) => if start < end && end - start
                    <= MAX_LINKED_EDITING_RANGE_BYTES {
                    Some(before.push((start, end)))
                } else {
                    None
                },
                _ => None,
            },
            None => None,
        }
    }
}

/// Whether a span ends behind where the next starts.
pub open spec fn reaches_next(spans: Seq<(int, int)>, i: int) -> bool {
    spans[i].1 > spans[i + 1].0
}

/// No two spans overlap.
pub open spec fn are_disjoint(spans: Seq<(int, int)>) -> bool {
    let sorted = items::picked(spans, order::sorted_order(spans, spans.len() as int));
    forall|i: int| 0 <= i < sorted.len() - 1 ==> !#[trigger] reaches_next(sorted, i)
}

/// Every span reads like the first.
pub open spec fn read_alike(t: Seq<u8>, spans: Seq<(int, int)>) -> bool {
    forall|i: int|
        #![trigger spans[i]]
        0 <= i < spans.len() ==> t.subrange(spans[i].0, spans[i].1) == t.subrange(
            spans[0].0,
            spans[0].1,
        )
}

/// The first of the spans from `from` on that holds the cursor, ends included.
pub open spec fn span_at(spans: Seq<(int, int)>, cursor: int, from: int) -> Option<int>
    decreases spans.len() - from,
{
    if from >= spans.len() {
        None
    } else if spans[from].0 <= cursor <= spans[from].1 {
        Some(from)
    } else {
        span_at(spans, cursor, from + 1)
    }
}

/// The spans with the one at `index` first, in exchange for the first.
pub open spec fn brought_first(spans: Seq<(int, int)>, index: int) -> Seq<(int, int)> {
    spans.update(0, spans[index]).update(index, spans[0])
}

/// The spans that are linked, the one with the cursor first.
pub open spec fn linked_spans(t: Seq<u8>, cursor: int, ranges: Seq<TextRange>) -> Option<
    Seq<(int, int)>,
> {
    if ranges.len() < 2 || ranges.len() > MAX_LINKED_EDITING_RANGES {
        None
    } else {
        match exact_spans(t, ranges, ranges.len() as int) {
            Some(spans) => if !are_disjoint(spans) || !read_alike(t, spans) {
                None
            } else {
                match span_at(spans, cursor, 0) {
                    Some(index) => Some(brought_first(spans, index)),
                    None => None,
                }
            },
            None => None,
        }
    }
}

/// What linked ranges read.
pub open spec fn linked_value(t: Seq<u8>, spans: Seq<(int, int)>) -> Seq<char> {
    decode_utf8(t.subrange(spans[0].0, spans[0].1))
}

/// The spans that are linked with their patterns, if what they read keeps to the
/// pattern that is used.
pub open spec fn linked(
    t: Seq<u8>,
    cursor: int,
    ranges: Seq<TextRange>,
    pattern: Option<Seq<char>>,
) -> Option<(Seq<(int, int)>, Option<Seq<char>>, Seq<char>)> {
    match linked_spans(t, cursor, ranges) {
        Some(spans) => {
            let value = linked_value(t, spans);
            let usable = match pattern {
                Some(source) => chars::byte_len(source) <= MAX_LINKED_EDITING_PATTERN_BYTES
                    && pattern_matches(source, value) is Some,
                None => false,
            };
            let (kept, used) = chosen_pattern(pattern, usable);
            if matches_whole(used, value) {
                Some((spans, kept, used))
            } else {
                None
            }
        },
        None => None,
    }
}

/// The spans lie in the text, on boundaries, and are not empty.
pub open spec fn spans_fit(t: Seq<u8>, spans: Seq<(int, int)>) -> bool {
    forall|i: int|
        #![trigger spans[i]]
        0 <= i < spans.len() ==> 0 <= spans[i].0 < spans[i].1 <= t.len() && text::is_boundary(
            t,
            spans[i].0,
        ) && text::is_boundary(t, spans[i].1)
}

fn read_exact_spans(document: &Document, ranges: &Vec<TextRange>) -> (spans: Option<
    Vec<Range<usize>>,
>)
    requires
        document.wf(),
    ensures
        match exact_spans(document.bytes(), ranges@, ranges@.len() as int) {
            Some(expected) => spans is Some && text::ranges_view((spans->Some_0)@) == expected
                && spans_fit(document.bytes(), expected) && (spans->Some_0)@.len() == ranges@.len(),
            None => spans is None,
        },
{
    let ghost t = document.bytes();
    let mut spans: Vec<Range<usize>> = Vec::new();
    let mut i: usize = 0;
    assert(text::ranges_view(spans@) =~= Seq::empty());
    while i < ranges.len()
        invariant
            document.wf(),
            t == document.bytes(),
            i <= ranges@.len(),
            spans@.len() == i,
            exact_spans(t, ranges@, i as int) == Some(text::ranges_view(spans@)),
            spans_fit(t, text::ranges_view(spans@)),
        decreases ranges.len() - i,
    {
        let ghost before = text::ranges_view(spans@);
        let found = (document.exact_offset(&ranges[i].start), document.exact_offset(&ranges[i].end));
        match found {
            (Some(start), Some(end)) => {
                if start >= end || end - start > MAX_LINKED_EDITING_RANGE_BYTES {
                    proof {
                        lemma_no_exact_spans(t, ranges@, i + 1, ranges@.len() as int);
                    }
                    return None;
                }
                spans.push(Range { start, end });
                assert(text::ranges_view(spans@) =~= before.push((start as int, end as int)));
            },
            _ => {
                proof {
                    lemma_no_exact_spans(t, ranges@, i + 1, ranges@.len() as int);
                }
                return None;
            },
        }
        i = i + 1;
    }
    Some(spans)
}

proof fn lemma_no_exact_spans(t: Seq<u8>, ranges: Seq<TextRange>, m: int, n: int)
    requires
        0 <= m <= n,
        exact_spans(t, ranges, m) is None,
    ensures
        exact_spans(t, ranges, n) is None,
    decreases n - m,
{
    if m < n {
        lemma_no_exact_spans(t, ranges, m, n - 1);
    }
}

/// Whether no two ranges overlap.
pub fn ranges_do_not_overlap(ranges: &Vec<Range<usize>>) -> (disjoint: bool)
    ensures
        disjoint == are_disjoint(text::ranges_view(ranges@)),
{
    let ghost spans = text::ranges_view(ranges@);
    let mut keys: Vec<(usize, usize)> = Vec::new();
    let mut i: usize = 0;
    while i < ranges.len()
        invariant
            i <= ranges@.len(),
            keys@.len() == i,
            forall|k: int| 0 <= k < i ==> #[trigger] keys@[k] == (ranges@[k].start, ranges@[k].end),
        decreases ranges.len() - i,
    {
        keys.push((ranges[i].start, ranges[i].end));
        i = i + 1;
    }
    assert(order::keys_view(keys@) =~= spans);
    let sorted = order::stable_order(&keys);
    let ghost view = order::indices_view(sorted@);
    let ghost ordered = items::picked(spans, view);
    let mut k: usize = 1;
    while k < sorted.len()
        invariant
            1 <= k,
            k <= sorted@.len() || sorted@.len() == 0,
            sorted@.len() == ranges@.len(),
            spans == text::ranges_view(ranges@),
            view == order::indices_view(sorted@),
            view == order::sorted_order(spans, spans.len() as int),
            ordered == items::picked(spans, view),
            forall|j: int| 0 <= j < sorted@.len() ==> #[trigger] sorted@[j] < ranges@.len(),
            forall|j: int| 0 <= j < k - 1 ==> !#[trigger] reaches_next(ordered, j),
        decreases sorted.len() - k,
    {
        assert(view[k - 1] == sorted@[k - 1]);
        assert(view[k as int] == sorted@[k as int]);
        assert(ordered[k - 1] == spans[sorted@[k - 1] as int]);
        assert(ordered[k as int] == spans[sorted@[k as int] as int]);
        if ranges[sorted[k - 1]].end > ranges[sorted[k]].start {
            assert(reaches_next(ordered, k - 1));
            return false;
        }
        k = k + 1;
    }
    true
}

/// The spans that are linked, the one with the cursor first.
pub fn find_linked_spans(document: &Document, cursor: usize, ranges: &Vec<TextRange>) -> (spans: Option<
    Vec<Range<usize>>,
>)
    requires
        document.wf(),
    ensures
        match linked_spans(document.bytes(), cursor as int, ranges@) {
            Some(expected) => spans is Some && text::ranges_view((spans->Some_0)@) == expected
                && spans_fit(document.bytes(), expected) && expected.len() >= 2,
            None => spans is None,
        },
{
    let ghost t = document.bytes();
    if ranges.len() < 2 || ranges.len() > MAX_LINKED_EDITING_RANGES {
        return None;
    }
    let spans = match read_exact_spans(document, ranges) {
        Some(spans) => spans,
        None => {
            return None;
        },
    };
    let ghost view = text::ranges_view(spans@);
    if !ranges_do_not_overlap(&spans) {
        return None;
    }
    assert(view[0] == (spans@[0].start as int, spans@[0].end as int));
    let reference = document.slice(spans[0].start, spans[0].end);
    let mut i: usize = 0;
    while i < spans.len()
        invariant
            document.wf(),
            t == document.bytes(),
            view == text::ranges_view(spans@),
            spans_fit(t, view),
            spans@.len() >= 2,
            spans@.len() == ranges@.len(),
            ranges@.len() <= MAX_LINKED_EDITING_RANGES,
            exact_spans(t, ranges@, ranges@.len() as int) == Some(view),
            are_disjoint(view),
            encode_utf8(reference@) == t.subrange(view[0].0, view[0].1),
            i <= spans@.len(),
            forall|k: int|
                #![trigger view[k]]
                0 <= k < i ==> t.subrange(view[k].0, view[k].1) == t.subrange(
                    view[0].0,
                    view[0].1,
                ),
        decreases spans.len() - i,
    {
        assert(view[i as int] == (spans@[i as int].start as int, spans@[i as int].end as int));
        let value = document.slice(spans[i].start, spans[i].end);
        if !lines::equal_bytes(value.as_str().as_bytes(), reference.as_str().as_bytes()) {
            return None;
        }
        i = i + 1;
    }
    let mut k: usize = 0;
    while k < spans.len()
        invariant
            view == text::ranges_view(spans@),
            t == document.bytes(),
            spans_fit(t, view),
            spans@.len() >= 2,
            spans@.len() == ranges@.len(),
            ranges@.len() <= MAX_LINKED_EDITING_RANGES,
            exact_spans(t, ranges@, ranges@.len() as int) == Some(view),
            are_disjoint(view),
            read_alike(t, view),
            k <= spans@.len(),
            span_at(view, cursor as int, 0) == span_at(view, cursor as int, k as int),
        decreases spans.len() - k,
    {
        assert(view[k as int] == (spans@[k as int].start as int, spans@[k as int].end as int));
        if spans[k].start <= cursor && cursor <= spans[k].end {
            let first = Range { start: spans[0].start, end: spans[0].end };
            let found = Range { start: spans[k].start, end: spans[k].end };
            let mut spans = spans;
            spans.set(0, found);
            spans.set(k, first);
            assert(text::ranges_view(spans@) =~= brought_first(view, k as int));
            return Some(spans);
        }
        k = k + 1;
    }
    None
}

/// The ranges of a reply that are linked, the one with the cursor first, with
/// the pattern that what they read keeps to.
pub fn validate_linked_editing_ranges(
    document: &Document,
    cursor: usize,
    response: LinkedEditingRanges,
) -> (validated: Option<ValidatedLinkedEditingRanges>)
    requires
        document.wf(),
    ensures
        match linked(
            document.bytes(),
            cursor as int,
            response.ranges@,
            optional_view(response.word_pattern),
        ) {
            Some((spans, kept, used)) => {
                &&& validated is Some
                &&& text::ranges_view((validated->Some_0).ranges@) == spans
                &&& optional_view((validated->Some_0).word_pattern) == kept
                &&& (validated->Some_0).regex@ == used
            },
            None => validated is None,
        },
{
    let spans = match find_linked_spans(document, cursor, &response.ranges) {
        Some(spans) => spans,
        None => {
            return None;
        },
    };
    let ghost view = text::ranges_view(spans@);
    assert(view[0] == (spans@[0].start as int, spans@[0].end as int));
    let value = document.slice(spans[0].start, spans[0].end);
    proof {
        encode_utf8_decode_utf8(value@);
    }
    let usable = match &response.word_pattern {
        Some(source) => source.as_str().as_bytes().len() <= MAX_LINKED_EDITING_PATTERN_BYTES
            && matching::find_regex(
            source.as_str(),
            false,
            false,
            PATTERN_SIZE_LIMIT,
            PATTERN_CACHE_LIMIT,
            value.as_str(),
        ).is_some(),
        None => false,
    };
    let (word_pattern, regex) = choose_word_pattern(response.word_pattern, usable);
    if !regex_matches_entire_value(regex.as_str(), value.as_str()) {
        return None;
    }
    Some(ValidatedLinkedEditingRanges { ranges: spans, word_pattern, regex })
}

/// `x` as an offset, or the nearest that there is.
pub open spec fn saturated(x: int) -> int {
    if x < 0 {
        0
    } else if x > usize::MAX {
        usize::MAX as int
    } else {
        x
    }
}

fn saturate(x: i128) -> (offset: usize)
    ensures
        offset == saturated(x as int),
{
    if x < 0 {
        0
    } else if x > usize::MAX as i128 {
        usize::MAX
    } else {
        x as usize
    }
}

/// By how much an edit lengthens the text.
pub open spec fn edit_delta(edit: (int, int), inserted: int) -> int {
    inserted - if edit.1 > edit.0 {
        edit.1 - edit.0
    } else {
        0
    }
}

/// Where a span lies after an edit: the edited one grows with it, one before it
/// stays, one behind it moves. There is no place for one that it reaches into.
pub open spec fn followed_span(
    span: (int, int),
    edited: bool,
    edit: (int, int),
    inserted: int,
) -> Option<(int, int)> {
    let delta = edit_delta(edit, inserted);
    if edited {
        if edit.0 < span.0 || edit.1 > span.1 {
            None
        } else {
            let end = saturated(span.1 + delta);
            Some(
                (
                    span.0,
                    if end < span.0 {
                        span.0
                    } else {
                        end
                    },
                ),
            )
        }
    } else if span.1 <= edit.0 {
        Some(span)
    } else if span.0 >= edit.1 {
        Some((saturated(span.0 + delta), saturated(span.1 + delta)))
    } else {
        None
    }
}

/// Where the first `n` spans lie after an edit of the one at `index`.
pub open spec fn followed_spans(
    spans: Seq<(int, int)>,
    index: int,
    edit: (int, int),
    inserted: int,
    n: int,
) -> Option<Seq<(int, int)>>
    decreases n,
{
    if n <= 0 {
        Some(Seq::empty())
    } else {
        match followed_spans(spans, index, edit, inserted, n - 1) {
            Some(before) => match followed_span(spans[n - 1], n - 1 == index, edit, inserted) {
                Some(span) => Some(before.push(span)),
                None => None,
            },
            None => None,
        }
    }
}

proof fn lemma_not_followed(
    spans: Seq<(int, int)>,
    index: int,
    edit: (int, int),
    inserted: int,
    m: int,
    n: int,
)
    requires
        0 <= m <= n,
        followed_spans(spans, index, edit, inserted, m) is None,
    ensures
        followed_spans(spans, index, edit, inserted, n) is None,
    decreases n - m,
{
    if m < n {
        lemma_not_followed(spans, index, edit, inserted, m, n - 1);
    }
}

/// Where the ranges lie after an edit of the one at `edited_index`.
pub fn track_ranges_for_edit(
    ranges: &Vec<Range<usize>>,
    edited_index: usize,
    edit: &Range<usize>,
    inserted_len: usize,
) -> (updated: Option<Vec<Range<usize>>>)
    ensures
        match followed_spans(
            text::ranges_view(ranges@),
            edited_index as int,
            (edit.start as int, edit.end as int),
            inserted_len as int,
            ranges@.len() as int,
        ) {
            Some(expected) => updated is Some && text::ranges_view((updated->Some_0)@)
                == expected,
            None => updated is None,
        },
{
    let ghost spans = text::ranges_view(ranges@);
    let ghost change = (edit.start as int, edit.end as int);
    let removed: i128 = if edit.end > edit.start {
        edit.end as i128 - edit.start as i128
    } else {
        0
    };
    let delta: i128 = inserted_len as i128 - removed;
    let mut updated: Vec<Range<usize>> = Vec::new();
    let mut i: usize = 0;
    assert(text::ranges_view(updated@) =~= Seq::empty());
    while i < ranges.len()
        invariant
            i <= ranges@.len(),
            spans == text::ranges_view(ranges@),
            change == (edit.start as int, edit.end as int),
            delta == edit_delta(change, inserted_len as int),
            -0x1_0000_0000_0000_0000 <= delta <= 0x1_0000_0000_0000_0000,
            followed_spans(spans, edited_index as int, change, inserted_len as int, i as int) == Some(
                text::ranges_view(updated@),
            ),
        decreases ranges.len() - i,
    {
        let ghost before = text::ranges_view(updated@);
        let start: usize = ranges[i].start;
        let end: usize = ranges[i].end;
        assert(spans[i as int] == (start as int, end as int));
        let fits = if i == edited_index {
            edit.start >= start && edit.end <= end
        } else {
            end <= edit.start || start >= edit.end
        };
        if !fits {
            proof {
                lemma_not_followed(
                    spans,
                    edited_index as int,
                    change,
                    inserted_len as int,
                    i + 1,
                    ranges@.len() as int,
                );
            }
            return None;
        }
        let moved = if i == edited_index {
            let new_end: usize = saturate(end as i128 + delta);
            Range {
                start,
                end: if new_end < start {
                    start
                } else {
                    new_end
                },
            }
        } else if end <= edit.start {
            Range { start, end }
        } else {
            Range { start: saturate(start as i128 + delta), end: saturate(end as i128 + delta) }
        };
        updated.push(moved);
        assert(text::ranges_view(updated@) =~= before.push(
            (moved.start as int, moved.end as int),
        ));
        i = i + 1;
    }
    Some(updated)
}

/// The number of characters from `i` on that the texts start with in common.
pub open spec fn prefix_len(a: Seq<char>, b: Seq<char>, i: int) -> int
    decreases a.len() - i,
{
    if i >= a.len() || i >= b.len() || a[i] != b[i] {
        i
    } else {
        prefix_len(a, b, i + 1)
    }
}

/// The number of characters that the texts end with in common, of those behind
/// the first `p`, if `k` are.
pub open spec fn suffix_len(a: Seq<char>, b: Seq<char>, p: int, k: int) -> int
    decreases a.len() - p - k,
{
    if k >= a.len() - p || k >= b.len() - p || a[a.len() - 1 - k] != b[b.len() - 1 - k] {
        k
    } else {
        suffix_len(a, b, p, k + 1)
    }
}

/// The part of `a` that is replaced to make it `b`, and what replaces it.
pub open spec fn minimal_edit(a: Seq<char>, b: Seq<char>) -> (int, int, Seq<char>) {
    let p = prefix_len(a, b, 0);
    let k = suffix_len(a, b, p, 0);
    (
        chars::byte_len(a.take(p)),
        chars::byte_len(a.take(a.len() - k)),
        b.subrange(p, b.len() - k),
    )
}

proof fn lemma_prefix_len(a: Seq<char>, b: Seq<char>, i: int)
    requires
        0 <= i <= a.len(),
        i <= b.len(),
        a.take(i) == b.take(i),
    ensures
        i <= prefix_len(a, b, i) <= a.len(),
        prefix_len(a, b, i) <= b.len(),
        a.take(prefix_len(a, b, i)) == b.take(prefix_len(a, b, i)),
    decreases a.len() - i,
{
    if i < a.len() && i < b.len() && a[i] == b[i] {
        assert(a.take(i + 1) =~= a.take(i).push(a[i]));
        assert(b.take(i + 1) =~= b.take(i).push(b[i]));
        lemma_prefix_len(a, b, i + 1);
    }
}

proof fn lemma_suffix_len(a: Seq<char>, b: Seq<char>, p: int, k: int)
    requires
        0 <= p <= a.len(),
        p <= b.len(),
        0 <= k <= a.len() - p,
        k <= b.len() - p,
        a.skip(a.len() - k) == b.skip(b.len() - k),
    ensures
        k <= suffix_len(a, b, p, k) <= a.len() - p,
        suffix_len(a, b, p, k) <= b.len() - p,
        a.skip(a.len() - suffix_len(a, b, p, k)) == b.skip(b.len() - suffix_len(a, b, p, k)),
    decreases a.len() - k,
{
    if k < a.len() - p && k < b.len() - p && a[a.len() - 1 - k] == b[b.len() - 1 - k] {
        assert(a.skip(a.len() - (k + 1)) =~= seq![a[a.len() - 1 - k]] + a.skip(a.len() - k));
        assert(b.skip(b.len() - (k + 1)) =~= seq![b[b.len() - 1 - k]] + b.skip(b.len() - k));
        lemma_suffix_len(a, b, p, k + 1);
    }
}

/// Replacing the part makes the one text the other.
pub proof fn law_minimal_edit(a: Seq<char>, b: Seq<char>)
    ensures
        0 <= minimal_edit(a, b).0 <= minimal_edit(a, b).1 <= chars::byte_len(a),
        text::is_boundary(encode_utf8(a), minimal_edit(a, b).0),
        text::is_boundary(encode_utf8(a), minimal_edit(a, b).1),
        edit::replaced(
            encode_utf8(a),
            (minimal_edit(a, b).0, minimal_edit(a, b).1, encode_utf8(minimal_edit(a, b).2)),
        ) == encode_utf8(b),
{
    assert(a.take(0) =~= b.take(0));
    lemma_prefix_len(a, b, 0);
    let p = prefix_len(a, b, 0);
    assert(a.skip(a.len() as int) =~= b.skip(b.len() as int));
    lemma_suffix_len(a, b, p, 0);
    let k = suffix_len(a, b, p, 0);
    let t = encode_utf8(a);
    let middle = b.subrange(p, b.len() - k);
    lemma_char_boundary(a, p);
    lemma_char_boundary(a, a.len() - k);
    assert(a.take(a.len() - k).take(p) =~= a.take(p));
    chars::lemma_byte_len_split(a.take(a.len() - k), p);
    assert(b =~= a.take(p) + middle + a.skip(a.len() - k));
    text::lemma_encode_concat(a.take(p) + middle, a.skip(a.len() - k));
    text::lemma_encode_concat(a.take(p), middle);
    assert(edit::replaced(
        t,
        (minimal_edit(a, b).0, minimal_edit(a, b).1, encode_utf8(middle)),
    ) =~= encode_utf8(b));
}

/// No longer part than `prefix_len` is common to the starts.
proof fn lemma_prefix_longest(a: Seq<char>, b: Seq<char>, i: int, p: int)
    requires
        0 <= i <= p <= a.len(),
        p <= b.len(),
        a.take(p) == b.take(p),
    ensures
        p <= prefix_len(a, b, i),
    decreases p - i,
{
    if i < p {
        assert(a[i] == a.take(p)[i] && b[i] == b.take(p)[i]);
        lemma_prefix_longest(a, b, i + 1, p);
    } else {
        lemma_prefix_len(a, b, i);
    }
}

/// No longer part than `suffix_len` is common to the ends.
proof fn lemma_suffix_longest(a: Seq<char>, b: Seq<char>, p: int, i: int, k: int)
    requires
        0 <= p,
        0 <= i <= k <= a.len() - p,
        k <= b.len() - p,
        a.skip(a.len() - k) == b.skip(b.len() - k),
    ensures
        k <= suffix_len(a, b, p, i),
    decreases k - i,
{
    if i < k {
        assert(a[a.len() - 1 - i] == a.skip(a.len() - k)[k - 1 - i]);
        assert(b[b.len() - 1 - i] == b.skip(b.len() - k)[k - 1 - i]);
        lemma_suffix_longest(a, b, p, i + 1, k);
    } else {
        lemma_suffix_len(a, b, p, i);
    }
}

proof fn lemma_take_shorter(s: Seq<char>, i: int, j: int)
    requires
        0 <= i <= j <= s.len(),
    ensures
        chars::byte_len(s.take(i)) <= chars::byte_len(s.take(j)),
{
    assert(s.take(j).take(i) =~= s.take(i));
    lemma_char_boundary(s.take(j), i);
}

/// What keeps `x` at the start and `z` at the end replaces no less.
proof fn lemma_no_shorter_part(x: Seq<char>, y: Seq<char>, z: Seq<char>, inserted: Seq<char>)
    ensures
        ({
            let edit = minimal_edit(x + y + z, x + inserted + z);
            ||| edit.1 - edit.0 <= encode_utf8(y).len()
            ||| edit.2.len() == 0
        }),
{
    let a = x + y + z;
    let b = x + inserted + z;
    let p = prefix_len(a, b, 0);
    let k = suffix_len(a, b, p, 0);
    assert(a.take(0) =~= b.take(0));
    lemma_prefix_len(a, b, 0);
    assert(a.skip(a.len() as int) =~= b.skip(b.len() as int));
    lemma_suffix_len(a, b, p, 0);
    assert(a.take(x.len() as int) =~= b.take(x.len() as int));
    lemma_prefix_longest(a, b, 0, x.len() as int);
    let least = if a.len() <= b.len() {
        a.len() - p
    } else {
        b.len() - p
    };
    if z.len() <= least {
        assert(a.skip(a.len() - z.len()) =~= b.skip(b.len() - z.len()));
        lemma_suffix_longest(a, b, p, 0, z.len() as int);
        lemma_take_shorter(a, x.len() as int, p);
        lemma_take_shorter(a, a.len() - k, a.len() - z.len());
        assert(a.take(x.len() as int) =~= x);
        assert(a.take(a.len() - z.len()) =~= x + y);
        text::lemma_encode_concat(x, y);
        lemma_char_boundary(x + y, (x + y).len() as int);
        lemma_char_boundary(x, x.len() as int);
        assert((x + y).take((x + y).len() as int) =~= x + y);
        assert(x.take(x.len() as int) =~= x);
        chars::lemma_byte_len_split(x + y, x.len() as int);
        assert((x + y).take(x.len() as int) =~= x);
        assert((x + y).skip(x.len() as int) =~= y);
    } else {
        assert(a.skip(a.len() - least) =~= z.skip(z.len() - least));
        assert(b.skip(b.len() - least) =~= z.skip(z.len() - least));
        lemma_suffix_longest(a, b, p, 0, least);
    }
}

/// No edit that makes the one text the other takes out or puts in less.
pub proof fn law_no_edit_is_shorter(
    a: Seq<char>,
    b: Seq<char>,
    start: int,
    end: int,
    inserted: Seq<char>,
)
    requires
        0 <= start <= end <= encode_utf8(a).len(),
        text::is_boundary(encode_utf8(a), start),
        text::is_boundary(encode_utf8(a), end),
        edit::replaced(encode_utf8(a), (start, end, encode_utf8(inserted))) == encode_utf8(b),
    ensures
        minimal_edit(a, b).1 - minimal_edit(a, b).0 <= end - start,
        encode_utf8(minimal_edit(a, b).2).len() <= encode_utf8(inserted).len(),
{
    let t = encode_utf8(a);
    let n = t.len() as int;
    encode_utf8_valid_utf8(a);
    text::lemma_valid_subrange(t, 0, start);
    text::lemma_valid_subrange(t, start, end);
    text::lemma_valid_subrange(t, end, n);
    let x = decode_utf8(t.subrange(0, start));
    let y = decode_utf8(t.subrange(start, end));
    let z = decode_utf8(t.subrange(end, n));
    decode_utf8_encode_utf8(t.subrange(0, start));
    decode_utf8_encode_utf8(t.subrange(start, end));
    decode_utf8_encode_utf8(t.subrange(end, n));
    text::lemma_encode_concat(x, y);
    text::lemma_encode_concat(x + y, z);
    text::lemma_encode_concat(x, inserted);
    text::lemma_encode_concat(x + inserted, z);
    assert(encode_utf8(x + y + z) =~= t);
    assert(encode_utf8(x + inserted + z) =~= encode_utf8(b));
    encode_utf8_decode_utf8(a);
    encode_utf8_decode_utf8(x + y + z);
    encode_utf8_decode_utf8(b);
    encode_utf8_decode_utf8(x + inserted + z);
    law_minimal_edit(a, b);
    lemma_no_shorter_part(x, y, z, inserted);
    let edit = minimal_edit(a, b);
    if edit.2.len() == 0 {
        assert(edit.2 =~= Seq::empty());
        assert(encode_utf8(edit.2).len() == 0);
    }
}

/// Behind each character of a text is a boundary, and the bytes up to it are
/// those of the characters.
pub proof fn lemma_char_boundary(s: Seq<char>, i: int)
    requires
        0 <= i <= s.len(),
    ensures
        text::is_boundary(encode_utf8(s), chars::byte_len(s.take(i))),
        0 <= chars::byte_len(s.take(i)) <= chars::byte_len(s),
        encode_utf8(s).subrange(0, chars::byte_len(s.take(i))) == encode_utf8(s.take(i)),
        encode_utf8(s).subrange(chars::byte_len(s.take(i)), chars::byte_len(s)) == encode_utf8(
            s.skip(i),
        ),
{
    let head = encode_utf8(s.take(i));
    let tail = encode_utf8(s.skip(i));
    assert(s =~= s.take(i) + s.skip(i));
    text::lemma_encode_concat(s.take(i), s.skip(i));
    let t = encode_utf8(s);
    assert(t == head + tail);
    assert(t.subrange(0, head.len() as int) =~= head);
    assert(t.subrange(head.len() as int, t.len() as int) =~= tail);
    if 0 < head.len() < t.len() {
        encode_utf8_valid_utf8(s.skip(i));
        assert(valid_first_scalar(tail));
        assert(t[head.len() as int] == tail[0]);
    }
}

/// The part of `old` that is replaced to make it `new`, and what replaces it.
pub fn minimal_replacement(old_text: &str, new_text: &str) -> (edit: (Range<usize>, String))
    ensures
        (edit.0.start as int, edit.0.end as int, edit.1@) == minimal_edit(old_text@, new_text@),
{
    let a = chars::chars_of(old_text);
    let b = chars::chars_of(new_text);
    proof {
        assert(a@.take(0) =~= b@.take(0));
        lemma_prefix_len(a@, b@, 0);
        lemma_suffix_start(a@, b@);
        lemma_suffix_len(a@, b@, prefix_len(a@, b@, 0), 0);
    }
    let mut p: usize = 0;
    while p < a.len() && p < b.len() && a[p] == b[p]
        invariant
            p <= a@.len(),
            p <= b@.len(),
            prefix_len(a@, b@, 0) == prefix_len(a@, b@, p as int),
        decreases a.len() - p,
    {
        p = p + 1;
    }
    let mut k: usize = 0;
    while k < a.len() - p && k < b.len() - p && a[a.len() - 1 - k] == b[b.len() - 1 - k]
        invariant
            p <= a@.len(),
            p <= b@.len(),
            k <= a@.len() - p,
            k <= b@.len() - p,
            suffix_len(a@, b@, p as int, 0) == suffix_len(a@, b@, p as int, k as int),
        decreases a.len() - k,
    {
        k = k + 1;
    }
    let start: usize = bytes_before(old_text, &a, p);
    let end: usize = bytes_before(old_text, &a, a.len() - k);
    let mut text = String::new();
    let mut i: usize = p;
    assert(text@ =~= b@.subrange(p as int, p as int));
    while i < b.len() - k
        invariant
            k <= b@.len() - p,
            p <= i <= b@.len() - k,
            text@ == b@.subrange(p as int, i as int),
        decreases b.len() - k - i,
    {
        chars::push_char(&mut text, b[i]);
        assert(text@ =~= b@.subrange(p as int, i + 1));
        i = i + 1;
    }
    (Range { start, end }, text)
}

proof fn lemma_suffix_start(a: Seq<char>, b: Seq<char>)
    ensures
        a.skip(a.len() as int) == b.skip(b.len() as int),
{
    assert(a.skip(a.len() as int) =~= b.skip(b.len() as int));
}

/// The number of bytes of the first `n` characters.
fn bytes_before(s: &str, all: &Vec<char>, n: usize) -> (bytes: usize)
    requires
        all@ == s@,
        n <= all@.len(),
    ensures
        bytes == chars::byte_len(s@.take(n as int)),
{
    let total: usize = s.as_bytes().len();
    let mut bytes: usize = 0;
    let mut i: usize = 0;
    proof {
        assert(s@.take(0) =~= Seq::empty());
        chars::lemma_byte_len_empty();
    }
    while i < n
        invariant
            all@ == s@,
            total == encode_utf8(s@).len(),
            i <= n <= all@.len(),
            bytes == chars::byte_len(s@.take(i as int)),
        decreases n - i,
    {
        proof {
            assert(s@.take(i + 1) =~= s@.take(i as int).push(all@[i as int]));
            chars::lemma_byte_len_push(s@.take(i as int), all@[i as int]);
            chars::lemma_byte_len_split(s@, i + 1);
        }
        bytes = bytes + chars::utf8_len(all[i]);
        i = i + 1;
    }
    bytes
}

/// No linked ranges, and a generation that no request has.
pub open spec fn without_linked(before: Lsp, after: Lsp) -> bool {
    &&& after == (Lsp {
        linked_editing_generation: next_generation(before.linked_editing_generation),
        linked_editing_ranges: after.linked_editing_ranges,
        linked_editing_word_pattern: None,
        linked_editing_regex: None,
        linked_editing_pending: false,
        ..before
    })
    &&& after.linked_editing_ranges@.len() == 0
}

/// The linked ranges follow an edit of the one at `index`; where they cannot,
/// there are none.
pub open spec fn follows_edit(
    before: Lsp,
    after: Lsp,
    index: int,
    edit: (int, int),
    inserted: int,
    followed: bool,
) -> bool {
    let spans = text::ranges_view(before.linked_editing_ranges@);
    match followed_spans(spans, index, edit, inserted, spans.len() as int) {
        Some(updated) => if are_disjoint(updated) {
            &&& followed
            &&& after == (Lsp { linked_editing_ranges: after.linked_editing_ranges, ..before })
            &&& text::ranges_view(after.linked_editing_ranges@) == updated
        } else {
            !followed && without_linked(before, after)
        },
        None => !followed && without_linked(before, after),
    }
}

impl Lsp {
    /// Drops the reply to a request that is under way.
    pub fn invalidate_linked_editing_request(&mut self)
        ensures
            *final(self) == if old(self).linked_editing_pending {
                Lsp {
                    linked_editing_generation: next_generation(
                        old(self).linked_editing_generation,
                    ),
                    linked_editing_pending: false,
                    ..*old(self)
                }
            } else {
                *old(self)
            },
    {
        if !self.linked_editing_pending {
            return;
        }
        self.linked_editing_generation = bump(self.linked_editing_generation);
        self.linked_editing_pending = false;
    }

    /// Drops the linked ranges and the reply to any request for them.
    pub fn clear_linked_editing(&mut self)
        ensures
            without_linked(*old(self), *final(self)),
    {
        self.linked_editing_generation = bump(self.linked_editing_generation);
        self.linked_editing_ranges = Vec::new();
        self.linked_editing_word_pattern = None;
        self.linked_editing_regex = None;
        self.linked_editing_pending = false;
    }

    fn begin_linked_editing_request(&mut self) -> (generation: u64)
        ensures
            generation == next_generation(old(self).linked_editing_generation),
            *final(self) == (Lsp {
                linked_editing_generation: generation,
                linked_editing_pending: true,
                ..*old(self)
            }),
    {
        self.linked_editing_generation = bump(self.linked_editing_generation);
        self.linked_editing_pending = true;
        self.linked_editing_generation
    }

    /// The linked ranges follow an edit of the first of them. An edit elsewhere
    /// ends linked editing.
    pub fn prepare_linked_editing_edit(&mut self, edit: &Range<usize>, inserted_len: usize) -> (followed:
        bool)
        ensures
            old(self).linked_editing_ranges@.len() == 0 ==> !followed && *final(self) == *old(self),
            old(self).linked_editing_ranges@.len() > 0 ==> follows_edit(
                *old(self),
                *final(self),
                0,
                (edit.start as int, edit.end as int),
                inserted_len as int,
                followed,
            ),
    {
        if self.linked_editing_ranges.len() == 0 {
            return false;
        }
        self.track_linked_editing_edit(0, edit, inserted_len)
    }

    fn track_linked_editing_edit(
        &mut self,
        edited_index: usize,
        edit: &Range<usize>,
        inserted_len: usize,
    ) -> (followed: bool)
        ensures
            follows_edit(
                *old(self),
                *final(self),
                edited_index as int,
                (edit.start as int, edit.end as int),
                inserted_len as int,
                followed,
            ),
    {
        let updated = track_ranges_for_edit(
            &self.linked_editing_ranges,
            edited_index,
            edit,
            inserted_len,
        );
        match updated {
            Some(updated) => {
                if ranges_do_not_overlap(&updated) {
                    self.linked_editing_ranges = updated;
                    return true;
                }
                self.clear_linked_editing();
                false
            },
            None => {
                self.clear_linked_editing();
                false
            },
        }
    }
}

/// The first linked range holds the cursor, ends included.
pub open spec fn holds_cursor(lsp: Lsp, cursor: int) -> bool {
    lsp.linked_editing_ranges@.len() > 0 && lsp.linked_editing_ranges@[0].start <= cursor
        <= lsp.linked_editing_ranges@[0].end
}

fn check_holds_cursor(lsp: &Lsp, cursor: usize) -> (holds: bool)
    ensures
        holds == holds_cursor(*lsp, cursor as int),
{
    lsp.linked_editing_ranges.len() > 0 && lsp.linked_editing_ranges[0].start <= cursor && cursor
        <= lsp.linked_editing_ranges[0].end
}

/// What comes to stand in the mirrors.
pub struct MirrorModel {
    pub text: Seq<u8>,
    pub spans: Seq<(int, int)>,
    pub changed: bool,
    pub going: bool,
}

/// The mirrors from the last in the text to the first.
pub open spec fn mirror_keys(spans: Seq<(int, int)>) -> Seq<(int, int)> {
    Seq::new((spans.len() - 1) as nat, |i: int| (usize::MAX - spans[i + 1].0, 0int))
}

/// The indices of the mirrors from the last in the text to the first.
pub open spec fn mirror_order(spans: Seq<(int, int)>) -> Seq<int> {
    let sorted = order::sorted_order(mirror_keys(spans), spans.len() - 1);
    Seq::new(sorted.len(), |i: int| sorted[i] + 1)
}

/// One mirror is made to read `value`, with the least edit.
pub open spec fn mirrored_one(m: MirrorModel, value: Seq<u8>, index: int) -> MirrorModel {
    let span = m.spans[index];
    if !snippet_state::is_readable(m.text, span) {
        MirrorModel { going: false, ..m }
    } else {
        let held = m.text.subrange(span.0, span.1);
        if held == value {
            m
        } else {
            let (start, end, new) = minimal_edit(decode_utf8(held), decode_utf8(value));
            let change = (span.0 + start, span.0 + end);
            let bytes = encode_utf8(new);
            let text = edit::replaced(m.text, (change.0, change.1, bytes));
            match followed_spans(m.spans, index, change, bytes.len() as int, m.spans.len() as int) {
                Some(spans) => if are_disjoint(spans) {
                    MirrorModel { text, spans, changed: true, going: true }
                } else {
                    MirrorModel { text, changed: true, going: false, ..m }
                },
                None => MirrorModel { text, changed: true, going: false, ..m },
            }
        }
    }
}

/// The mirrors from the `i`-th of the order on are made to read `value`.
pub open spec fn mirrored(m: MirrorModel, value: Seq<u8>, order: Seq<int>, i: int) -> MirrorModel
    decreases order.len() - i,
{
    if i >= order.len() || !m.going {
        m
    } else {
        mirrored(mirrored_one(m, value, order[i]), value, order, i + 1)
    }
}

/// What bringing the mirrors into step does: where the first range reads what
/// the pattern allows, every other range comes to read the same; where that
/// cannot be, linked editing ends. The selections keep their offsets.
pub open spec fn is_mirrored(before: InputState, after: InputState, synchronized: bool) -> bool {
    let t = before.bytes();
    let spans = text::ranges_view(before.lsp.linked_editing_ranges@);
    if spans.len() == 0 {
        !synchronized && after == before
    } else if !snippet_state::all_readable(t, spans) || !(before.lsp.linked_editing_regex is Some
        && matches_whole((before.lsp.linked_editing_regex->Some_0)@, linked_value(t, spans))) {
        &&& !synchronized
        &&& without_linked(before.lsp, after.lsp)
        &&& after == (InputState { lsp: after.lsp, ..before })
    } else {
        let value = t.subrange(spans[0].0, spans[0].1);
        let result = mirrored(
            MirrorModel { text: t, spans, changed: false, going: true },
            value,
            mirror_order(spans),
            0,
        );
        &&& synchronized == result.going
        &&& after.bytes() == result.text
        &&& after == (InputState {
            text: after.text,
            text_version: (before.text_version + if result.changed {
                1int
            } else {
                0int
            }) as usize,
            lsp: after.lsp,
            ..before
        })
        &&& if result.going {
            &&& after.lsp == (Lsp {
                linked_editing_ranges: after.lsp.linked_editing_ranges,
                ..before.lsp
            })
            &&& text::ranges_view(after.lsp.linked_editing_ranges@) == result.spans
        } else {
            without_linked(before.lsp, after.lsp)
        }
    }
}

impl InputState {
    /// Linked ranges may be asked for.
    pub open spec fn may_link(&self, has_provider: bool) -> bool {
        has_provider && self.mode is CodeEditor && self.snippet_session is None
    }

    /// Request linked ranges at the current caret. Where the caret is in the
    /// first of the ranges that are linked, they are asked for again only by
    /// force.
    pub fn refresh_linked_editing_ranges(&mut self, has_provider: bool, force: bool) -> (request: Option<
        LinkedEditingRequest,
    >)
        ensures
            *final(self) == (InputState { lsp: final(self).lsp, ..*old(self) }),
            ({
                let cursor = old(self).primary().spec_head();
                let inside = holds_cursor(old(self).lsp, cursor as int);
                if !old(self).may_link(has_provider) {
                    request is None && without_linked(old(self).lsp, final(self).lsp)
                } else if inside && !force {
                    request is None && final(self).lsp == old(self).lsp
                } else {
                    &&& request is Some
                    &&& (request->Some_0).cursor == cursor
                    &&& (request->Some_0).position == offset_position(
                        old(self).bytes(),
                        cursor as int,
                    )
                    &&& (request->Some_0).immediate == force
                    &&& (request->Some_0).generation == final(self).lsp.linked_editing_generation
                    &&& final(self).lsp.linked_editing_pending
                    &&& if inside {
                        final(self).lsp == (Lsp {
                            linked_editing_generation: next_generation(
                                old(self).lsp.linked_editing_generation,
                            ),
                            linked_editing_pending: true,
                            ..old(self).lsp
                        })
                    } else {
                        &&& final(self).lsp == (Lsp {
                            linked_editing_generation: next_generation(
                                next_generation(old(self).lsp.linked_editing_generation),
                            ),
                            linked_editing_ranges: final(self).lsp.linked_editing_ranges,
                            linked_editing_word_pattern: None,
                            linked_editing_regex: None,
                            linked_editing_pending: true,
                            ..old(self).lsp
                        })
                        &&& final(self).lsp.linked_editing_ranges@.len() == 0
                    }
                }
            }),
    {
        if !has_provider || !self.mode.is_code_editor() || self.snippet_session.is_some() {
            self.cancel_linked_editing();
            return None;
        }
        let cursor: usize = self.cursor();
        let inside = check_holds_cursor(&self.lsp, cursor);
        if !force && inside {
            return None;
        }
        if !inside {
            self.lsp.clear_linked_editing();
        }
        let position = self.document().offset_to_position(cursor);
        let generation: u64 = self.lsp.begin_linked_editing_request();
        Some(LinkedEditingRequest { generation, cursor, position, immediate: force })
    }

    /// Force an immediate linked-editing request.
    pub fn start_linked_editing(&mut self, has_provider: bool) -> (request: Option<
        LinkedEditingRequest,
    >)
        ensures
            *final(self) == (InputState { lsp: final(self).lsp, ..*old(self) }),
            request is Some == old(self).may_link(has_provider),
            !old(self).may_link(has_provider) ==> without_linked(old(self).lsp, final(self).lsp),
            old(self).may_link(has_provider) ==> {
                &&& (request->Some_0).cursor == old(self).primary().spec_head()
                &&& (request->Some_0).position == offset_position(
                    old(self).bytes(),
                    old(self).primary().spec_head() as int,
                )
                &&& (request->Some_0).immediate
                &&& (request->Some_0).generation == final(self).lsp.linked_editing_generation
                &&& final(self).lsp.linked_editing_pending
            },
    {
        self.refresh_linked_editing_ranges(has_provider, true)
    }

    /// Cancel the active request and discard all linked ranges.
    pub fn cancel_linked_editing(&mut self) -> (was_active: bool)
        ensures
            was_active == (old(self).lsp.linked_editing_pending || old(
                self,
            ).lsp.linked_editing_ranges@.len() > 0),
            without_linked(old(self).lsp, final(self).lsp),
            *final(self) == (InputState { lsp: final(self).lsp, ..*old(self) }),
    {
        let was_active = self.lsp.linked_editing_pending || self.lsp.linked_editing_ranges.len()
            > 0;
        self.lsp.clear_linked_editing();
        was_active
    }

    /// Whether the reply to a request is still for this text and cursor.
    pub open spec fn awaits_linked(&self, request: LinkedEditingRequest, requested: Rope) -> bool {
        self.lsp.linked_editing_generation == request.generation && self.bytes()
            == rope::rope_bytes(requested) && self.primary().spec_head() == request.cursor
    }

    /// Takes the ranges of a reply that are linked, while it is for this text
    /// and cursor. A reply without any ends linked editing.
    pub fn receive_linked_editing_ranges(
        &mut self,
        request: LinkedEditingRequest,
        requested: &Rope,
        response: Option<LinkedEditingRanges>,
    ) -> (taken: bool)
        ensures
            taken == old(self).awaits_linked(request, *requested),
            !taken ==> *final(self) == *old(self),
            taken ==> {
                &&& *final(self) == (InputState {
                    lsp: Lsp {
                        linked_editing_pending: false,
                        linked_editing_ranges: final(self).lsp.linked_editing_ranges,
                        linked_editing_word_pattern: final(self).lsp.linked_editing_word_pattern,
                        linked_editing_regex: final(self).lsp.linked_editing_regex,
                        ..old(self).lsp
                    },
                    ..*old(self)
                })
                &&& match match response {
                    Some(response) => linked(
                        old(self).bytes(),
                        request.cursor as int,
                        response.ranges@,
                        optional_view(response.word_pattern),
                    ),
                    None => None,
                } {
                    Some((spans, kept, used)) => {
                        &&& text::ranges_view(final(self).lsp.linked_editing_ranges@) == spans
                        &&& optional_view(final(self).lsp.linked_editing_word_pattern) == kept
                        &&& optional_view(final(self).lsp.linked_editing_regex) == Some(used)
                    },
                    None => {
                        &&& final(self).lsp.linked_editing_ranges@.len() == 0
                        &&& final(self).lsp.linked_editing_word_pattern is None
                        &&& final(self).lsp.linked_editing_regex is None
                    },
                }
            },
    {
        if self.lsp.linked_editing_generation != request.generation || !self.has_text(requested)
            || self.cursor() != request.cursor {
            return false;
        }
        self.lsp.linked_editing_pending = false;
        let document = self.document();
        let validated = match response {
            Some(response) => validate_linked_editing_ranges(&document, request.cursor, response),
            None => None,
        };
        match validated {
            Some(validated) => {
                self.lsp.linked_editing_ranges = validated.ranges;
                self.lsp.linked_editing_word_pattern = validated.word_pattern;
                self.lsp.linked_editing_regex = Some(validated.regex);
            },
            None => {
                self.lsp.linked_editing_ranges = Vec::new();
                self.lsp.linked_editing_word_pattern = None;
                self.lsp.linked_editing_regex = None;
            },
        }
        true
    }

    /// Current linked-editing state for debug surfaces and conformance tests.
    pub fn linked_editing_snapshot(&self) -> (snapshot: LinkedEditingSnapshot)
        ensures
            snapshot.ranges@ == Seq::new(
                self.lsp.linked_editing_ranges@.len(),
                |i: int|
                    TextRange {
                        start: offset_position(
                            self.bytes(),
                            self.lsp.linked_editing_ranges@[i].start as int,
                        ),
                        end: offset_position(
                            self.bytes(),
                            self.lsp.linked_editing_ranges@[i].end as int,
                        ),
                    },
            ),
            snapshot.word_pattern == self.lsp.linked_editing_word_pattern,
            snapshot.pending == self.lsp.linked_editing_pending,
    {
        let document = self.document();
        let mut ranges: Vec<TextRange> = Vec::new();
        let mut i: usize = 0;
        while i < self.lsp.linked_editing_ranges.len()
            invariant
                document.wf(),
                document.bytes() == self.bytes(),
                i <= self.lsp.linked_editing_ranges@.len(),
                ranges@ =~= Seq::new(
                    i as nat,
                    |k: int|
                        TextRange {
                            start: offset_position(
                                self.bytes(),
                                self.lsp.linked_editing_ranges@[k].start as int,
                            ),
                            end: offset_position(
                                self.bytes(),
                                self.lsp.linked_editing_ranges@[k].end as int,
                            ),
                        },
                ),
            decreases self.lsp.linked_editing_ranges.len() - i,
        {
            let range = &self.lsp.linked_editing_ranges[i];
            ranges.push(
                TextRange {
                    start: document.offset_to_position(range.start),
                    end: document.offset_to_position(range.end),
                },
            );
            i = i + 1;
        }
        LinkedEditingSnapshot {
            ranges,
            word_pattern: copy_optional(&self.lsp.linked_editing_word_pattern),
            pending: self.lsp.linked_editing_pending,
        }
    }

    /// Makes every linked range read like the first.
    pub fn synchronize_linked_editing_mirrors(&mut self) -> (synchronized: bool)
        requires
            old(self).text_version < usize::MAX,
        ensures
            is_mirrored(*old(self), *final(self), synchronized),
    {
        if self.lsp.linked_editing_ranges.len() == 0 {
            return false;
        }
        let ghost t = self.bytes();
        let ghost spans = text::ranges_view(self.lsp.linked_editing_ranges@);
        let document = self.document();
        if !snippet_state::check_readable(&document, &self.lsp.linked_editing_ranges) {
            self.cancel_linked_editing();
            return false;
        }
        assert(spans[0] == (
            self.lsp.linked_editing_ranges@[0].start as int,
            self.lsp.linked_editing_ranges@[0].end as int,
        ));
        let value = document.slice(
            self.lsp.linked_editing_ranges[0].start,
            self.lsp.linked_editing_ranges[0].end,
        );
        proof {
            encode_utf8_decode_utf8(value@);
        }
        let allowed = match &self.lsp.linked_editing_regex {
            Some(regex) => regex_matches_entire_value(regex.as_str(), value.as_str()),
            None => false,
        };
        if !allowed {
            self.cancel_linked_editing();
            return false;
        }
        let order = order_mirrors(&self.lsp.linked_editing_ranges);
        let ghost order_view = order::indices_view(order@);
        let ghost first = MirrorModel { text: t, spans, changed: false, going: true };
        let ghost bytes = encode_utf8(value@);
        let mut going = true;
        let mut changed = false;
        let mut i: usize = 0;
        while i < order.len() && going
            invariant
                i <= order@.len(),
                order_view == order::indices_view(order@),
                bytes == encode_utf8(value@),
                *self == (InputState {
                    text: self.text,
                    lsp: Lsp {
                        linked_editing_ranges: self.lsp.linked_editing_ranges,
                        ..old(self).lsp
                    },
                    ..*old(self)
                }),
                self.lsp.linked_editing_ranges@.len() == spans.len(),
                forall|k: int| 0 <= k < order@.len() ==> #[trigger] order@[k] < spans.len(),
                mirrored(first, bytes, order_view, 0) == mirrored(
                    MirrorModel {
                        text: self.bytes(),
                        spans: text::ranges_view(self.lsp.linked_editing_ranges@),
                        changed,
                        going,
                    },
                    bytes,
                    order_view,
                    i as int,
                ),
            decreases order.len() - i,
        {
            assert(order_view[i as int] == order@[i as int]);
            let (stepped, edited) = self.mirror_value(order[i], value.as_str());
            going = stepped;
            changed = changed || edited;
            i = i + 1;
        }
        proof {
            assert(mirrored(
                MirrorModel {
                    text: self.bytes(),
                    spans: text::ranges_view(self.lsp.linked_editing_ranges@),
                    changed,
                    going,
                },
                bytes,
                order_view,
                i as int,
            ) == (MirrorModel {
                text: self.bytes(),
                spans: text::ranges_view(self.lsp.linked_editing_ranges@),
                changed,
                going,
            }));
        }
        if changed {
            self.text_version = self.text_version + 1;
        }
        if !going {
            self.cancel_linked_editing();
        }
        going
    }

    /// Makes one linked range read `value`. Returns whether linked editing goes
    /// on, and whether the text changed.
    fn mirror_value(&mut self, index: usize, value: &str) -> (result: (bool, bool))
        requires
            index < old(self).lsp.linked_editing_ranges@.len(),
        ensures
            ({
                let before = MirrorModel {
                    text: old(self).bytes(),
                    spans: text::ranges_view(old(self).lsp.linked_editing_ranges@),
                    changed: false,
                    going: true,
                };
                let after = mirrored_one(before, encode_utf8(value@), index as int);
                &&& final(self).bytes() == after.text
                &&& text::ranges_view(final(self).lsp.linked_editing_ranges@) == after.spans
                &&& result == (after.going, after.changed)
            }),
            final(self).lsp.linked_editing_ranges@.len() == old(
                self,
            ).lsp.linked_editing_ranges@.len(),
            *final(self) == (InputState {
                text: final(self).text,
                lsp: Lsp {
                    linked_editing_ranges: final(self).lsp.linked_editing_ranges,
                    ..old(self).lsp
                },
                ..*old(self)
            }),
    {
        let ghost t = self.bytes();
        let ghost spans = text::ranges_view(self.lsp.linked_editing_ranges@);
        let document = self.document();
        let start: usize = self.lsp.linked_editing_ranges[index].start;
        let end: usize = self.lsp.linked_editing_ranges[index].end;
        assert(spans[index as int] == (start as int, end as int));
        if start > end || end > document.len() || !document.is_char_boundary(start)
            || !document.is_char_boundary(end) {
            return (false, false);
        }
        let held = document.slice(start, end);
        if lines::equal_bytes(held.as_str().as_bytes(), value.as_bytes()) {
            return (true, false);
        }
        let (relative, replacement) = minimal_replacement(held.as_str(), value);
        proof {
            document.lemma_wf();
            encode_utf8_decode_utf8(held@);
            encode_utf8_decode_utf8(value@);
            law_minimal_edit(held@, value@);
            lemma_inner_boundary(t, start as int, end as int, relative.start as int);
            lemma_inner_boundary(t, start as int, end as int, relative.end as int);
        }
        let from: usize = start + relative.start;
        let to: usize = start + relative.end;
        proof {
            snippet_state::lemma_cut(rope::rope_chars(self.text), from as int, to as int);
        }
        rope::rope_remove(&mut self.text, from, to);
        rope::rope_insert(&mut self.text, from, replacement.as_str());
        proof {
            let change = (from as int, to as int, encode_utf8(replacement@));
            assert(self.bytes() =~= edit::replaced(t, change));
        }
        let edit = Range { start: from, end: to };
        let updated = track_ranges_for_edit(
            &self.lsp.linked_editing_ranges,
            index,
            &edit,
            replacement.as_str().as_bytes().len(),
        );
        match updated {
            Some(updated) => {
                if ranges_do_not_overlap(&updated) {
                    proof {
                        lemma_followed_len(
                            spans,
                            index as int,
                            (from as int, to as int),
                            encode_utf8(replacement@).len() as int,
                            spans.len() as int,
                        );
                        assert(text::ranges_view(updated@).len() == updated@.len());
                    }
                    self.lsp.linked_editing_ranges = updated;
                    return (true, true);
                }
                (false, true)
            },
            None => (false, true),
        }
    }
}

proof fn lemma_followed_len(
    spans: Seq<(int, int)>,
    index: int,
    edit: (int, int),
    inserted: int,
    n: int,
)
    requires
        0 <= n,
    ensures
        match followed_spans(spans, index, edit, inserted, n) {
            Some(updated) => updated.len() == n,
            None => true,
        },
    decreases n,
{
    if n > 0 {
        lemma_followed_len(spans, index, edit, inserted, n - 1);
    }
}

/// A boundary of a part of the text is one of the text.
proof fn lemma_inner_boundary(t: Seq<u8>, start: int, end: int, o: int)
    requires
        0 <= start <= end <= t.len(),
        text::is_boundary(t, start),
        text::is_boundary(t, end),
        0 <= o <= end - start,
        text::is_boundary(t.subrange(start, end), o),
    ensures
        text::is_boundary(t, start + o),
{
    if 0 < o < end - start {
        assert(t.subrange(start, end)[o] == t[start + o]);
    }
}

/// The indices of the mirrors from the last in the text to the first.
fn order_mirrors(ranges: &Vec<Range<usize>>) -> (order: Vec<usize>)
    requires
        ranges@.len() > 0,
    ensures
        order::indices_view(order@) == mirror_order(text::ranges_view(ranges@)),
        forall|k: int| 0 <= k < order@.len() ==> #[trigger] order@[k] < ranges@.len(),
{
    let ghost spans = text::ranges_view(ranges@);
    let mut keys: Vec<(usize, usize)> = Vec::new();
    let mut i: usize = 1;
    while i < ranges.len()
        invariant
            1 <= i <= ranges@.len(),
            keys@.len() == i - 1,
            forall|k: int|
                0 <= k < i - 1 ==> #[trigger] keys@[k] == ((usize::MAX - ranges@[k
                    + 1].start) as usize, 0usize),
        decreases ranges.len() - i,
    {
        keys.push((usize::MAX - ranges[i].start, 0));
        i = i + 1;
    }
    assert(order::keys_view(keys@) =~= mirror_keys(spans));
    let sorted = order::stable_order(&keys);
    let ghost view = order::indices_view(sorted@);
    let mut order: Vec<usize> = Vec::new();
    let mut k: usize = 0;
    while k < sorted.len()
        invariant
            k <= sorted@.len(),
            sorted@.len() + 1 == ranges@.len(),
            view == order::indices_view(sorted@),
            forall|j: int| 0 <= j < sorted@.len() ==> #[trigger] sorted@[j] < sorted@.len(),
            order@.len() == k,
            forall|j: int| 0 <= j < k ==> #[trigger] order@[j] == sorted@[j] + 1,
        decreases sorted.len() - k,
    {
        order.push(sorted[k] + 1);
        k = k + 1;
    }
    assert(order::indices_view(order@) =~= mirror_order(spans));
    order
}

/// An edit at boundaries leaves well-formed text.
proof fn lemma_valid_replaced(t: Seq<u8>, e: (int, int, Seq<u8>))
    requires
        valid_utf8(t),
        0 <= e.0 <= e.1 <= t.len(),
        text::is_boundary(t, e.0),
        text::is_boundary(t, e.1),
        valid_utf8(e.2),
    ensures
        valid_utf8(edit::replaced(t, e)),
{
    text::lemma_valid_subrange(t, 0, e.0);
    text::lemma_valid_subrange(t, e.1, t.len() as int);
    valid_utf8_concat(t.subrange(0, e.0), e.2);
    valid_utf8_concat(t.subrange(0, e.0) + e.2, t.subrange(e.1, t.len() as int));
}

/// What `followed_spans` gives is what `followed_span` gives of each.
proof fn lemma_followed_each(
    spans: Seq<(int, int)>,
    index: int,
    edit: (int, int),
    inserted: int,
    n: int,
    k: int,
)
    requires
        0 <= k < n,
        followed_spans(spans, index, edit, inserted, n) is Some,
    ensures
        (followed_spans(spans, index, edit, inserted, n)->Some_0).len() == n,
        followed_span(spans[k], k == index, edit, inserted) == Some(
            (followed_spans(spans, index, edit, inserted, n)->Some_0)[k],
        ),
    decreases n,
{
    lemma_followed_len(spans, index, edit, inserted, n);
    lemma_followed_len(spans, index, edit, inserted, n - 1);
    if k < n - 1 {
        lemma_followed_each(spans, index, edit, inserted, n - 1, k);
    }
}

/// Every span lies in the text.
spec fn all_inside(m: MirrorModel) -> bool {
    forall|k: int|
        #![trigger m.spans[k]]
        0 <= k < m.spans.len() ==> 0 <= m.spans[k].0 <= m.spans[k].1 <= m.text.len()
}

spec fn reads(m: MirrorModel, k: int) -> Seq<u8> {
    m.text.subrange(m.spans[k].0, m.spans[k].1)
}

/// Writing one mirror makes it read the value and leaves the others as they read.
proof fn lemma_mirrored_one(m: MirrorModel, value: Seq<u8>, index: int)
    requires
        valid_utf8(m.text),
        valid_utf8(value),
        all_inside(m),
        0 <= index < m.spans.len(),
        m.text.len() + value.len() <= usize::MAX,
        mirrored_one(m, value, index).going,
    ensures
        ({
            let after = mirrored_one(m, value, index);
            &&& valid_utf8(after.text)
            &&& all_inside(after)
            &&& after.spans.len() == m.spans.len()
            &&& after.text.len() <= m.text.len() + value.len()
            &&& reads(after, index) == value
            &&& forall|k: int|
                0 <= k < m.spans.len() && k != index ==> #[trigger] reads(after, k) == reads(m, k)
        }),
{
    let span = m.spans[index];
    let held = m.text.subrange(span.0, span.1);
    let after = mirrored_one(m, value, index);
    if held != value {
        let a = decode_utf8(held);
        let b = decode_utf8(value);
        text::lemma_valid_subrange(m.text, span.0, span.1);
        decode_utf8_encode_utf8(held);
        decode_utf8_encode_utf8(value);
        law_minimal_edit(a, b);
        let (start, end, new) = minimal_edit(a, b);
        let bytes = encode_utf8(new);
        encode_utf8_valid_utf8(new);
        let change = (span.0 + start, span.0 + end);
        lemma_inner_boundary(m.text, span.0, span.1, start);
        lemma_inner_boundary(m.text, span.0, span.1, end);
        lemma_valid_replaced(m.text, (change.0, change.1, bytes));
        assert(edit::replaced(held, (start, end, bytes)) == value);
        assert(edit_delta(change, bytes.len() as int) == bytes.len() - (end - start));
        let delta = bytes.len() - (end - start);
        assert(value.len() == held.len() + delta);
        assert(after.text.len() == m.text.len() + delta);
        let n = m.spans.len() as int;
        assert forall|k: int| 0 <= k < n implies {
            &&& 0 <= (#[trigger] after.spans[k]).0 <= after.spans[k].1 <= after.text.len()
            &&& reads(after, k) == if k == index {
                value
            } else {
                reads(m, k)
            }
        } by {
            lemma_followed_each(m.spans, index, change, bytes.len() as int, n, k);
            assert(0 <= m.spans[k].0 <= m.spans[k].1 <= m.text.len());
            edit::lemma_reading(m.text, (change.0, change.1, bytes), m.spans[k].0, m.spans[k].1);
        }
        lemma_followed_len(m.spans, index, change, bytes.len() as int, n);
    }
}

/// The span is still to come from the `i`-th of the order on.
spec fn is_due(order: Seq<int>, i: int, k: int) -> bool {
    exists|j: int| i <= j < order.len() && #[trigger] order[j] == k
}

/// Writing the mirrors from the `i`-th of the order on makes each of them read
/// the value and leaves the other spans as they read.
proof fn lemma_mirrored(m: MirrorModel, value: Seq<u8>, order: Seq<int>, i: int)
    requires
        valid_utf8(m.text),
        valid_utf8(value),
        all_inside(m),
        0 <= i <= order.len(),
        forall|j: int| 0 <= j < order.len() ==> 0 <= #[trigger] order[j] < m.spans.len(),
        m.text.len() + (order.len() - i) * value.len() <= usize::MAX,
        mirrored(m, value, order, i).going,
    ensures
        ({
            let after = mirrored(m, value, order, i);
            &&& after.spans.len() == m.spans.len()
            &&& forall|k: int|
                0 <= k < m.spans.len() && (reads(m, k) == value || is_due(order, i, k))
                    ==> #[trigger] reads(after, k) == value
        }),
    decreases order.len() - i,
{
    if i < order.len() {
        let next = mirrored_one(m, value, order[i]);
        let rest = (order.len() - i - 1) * value.len();
        assert((order.len() - i) * value.len() == rest + value.len()) by (nonlinear_arith)
            requires
                rest == (order.len() - i - 1) * value.len(),
        ;
        assert(rest >= 0) by (nonlinear_arith)
            requires
                rest == (order.len() - i - 1) * value.len(),
                order.len() - i - 1 >= 0,
        ;
        if !next.going {
            assert(mirrored(next, value, order, i + 1) == next);
        }
        lemma_mirrored_one(m, value, order[i]);
        lemma_mirrored(next, value, order, i + 1);
        let after = mirrored(m, value, order, i);
        assert forall|k: int|
            0 <= k < m.spans.len() && (reads(m, k) == value || is_due(
                order,
                i,
                k,
            )) implies #[trigger] reads(after, k) == value by {
            if k == order[i] {
                assert(reads(next, k) == value);
            } else {
                assert(reads(next, k) == reads(m, k));
                if reads(m, k) != value {
                    let j = choose|j: int| i <= j < order.len() && #[trigger] order[j] == k;
                    assert(i + 1 <= j);
                }
            }
        }
    }
}

/// The order of the mirrors names each span but the first.
proof fn lemma_mirror_order(spans: Seq<(int, int)>)
    requires
        spans.len() > 0,
    ensures
        mirror_order(spans).len() == spans.len() - 1,
        forall|j: int|
            0 <= j < spans.len() - 1 ==> 0 < #[trigger] mirror_order(spans)[j] < spans.len(),
        forall|k: int| 0 < k < spans.len() ==> #[trigger] is_due(mirror_order(spans), 0, k),
{
    let n = spans.len() - 1;
    order::lemma_sorted_order(mirror_keys(spans), n);
    let sorted = order::sorted_order(mirror_keys(spans), n);
    assert forall|k: int| 0 < k < spans.len() implies #[trigger] is_due(
        mirror_order(spans),
        0,
        k,
    ) by {
        assert(sorted.contains(k - 1));
        let j = choose|j: int| 0 <= j < n && sorted[j] == k - 1;
        assert(mirror_order(spans)[j] == k);
    }
}

/// Linked ranges that were brought into step all read like the first did. The
/// lengths that come about are ones that a machine can hold.
pub proof fn law_mirrors_read_alike(before: InputState, after: InputState)
    requires
        is_mirrored(before, after, true),
        before.bytes().len() + before.lsp.linked_editing_ranges@.len() * (
        before.lsp.linked_editing_ranges@[0].end - before.lsp.linked_editing_ranges@[0].start)
            <= usize::MAX,
    ensures
        read_alike(after.bytes(), text::ranges_view(after.lsp.linked_editing_ranges@)),
        after.lsp.linked_editing_ranges@.len() == before.lsp.linked_editing_ranges@.len(),
        after.bytes().subrange(
            after.lsp.linked_editing_ranges@[0].start as int,
            after.lsp.linked_editing_ranges@[0].end as int,
        ) == before.bytes().subrange(
            before.lsp.linked_editing_ranges@[0].start as int,
            before.lsp.linked_editing_ranges@[0].end as int,
        ),
{
    let t = before.bytes();
    let spans = text::ranges_view(before.lsp.linked_editing_ranges@);
    let value = t.subrange(spans[0].0, spans[0].1);
    let first = MirrorModel { text: t, spans, changed: false, going: true };
    let order = mirror_order(spans);
    lemma_mirror_order(spans);
    encode_utf8_valid_utf8(rope::rope_chars(before.text));
    assert(snippet_state::is_readable(t, spans[0]));
    text::lemma_valid_subrange(t, spans[0].0, spans[0].1);
    assert forall|k: int| 0 <= k < spans.len() implies 0 <= (#[trigger] first.spans[k]).0
        <= first.spans[k].1 <= t.len() by {
        assert(snippet_state::is_readable(t, spans[k]));
    }
    assert(order.len() * value.len() <= spans.len() * value.len()) by (nonlinear_arith)
        requires
            order.len() <= spans.len(),
    ;
    lemma_mirrored(first, value, order, 0);
    let result = mirrored(first, value, order, 0);
    let ranges = text::ranges_view(after.lsp.linked_editing_ranges@);
    assert(ranges == result.spans);
    assert(reads(first, 0) == value);
    assert(reads(result, 0) == value);
    assert forall|k: int| 0 <= k < ranges.len() implies after.bytes().subrange(
        (#[trigger] ranges[k]).0,
        ranges[k].1,
    ) == after.bytes().subrange(ranges[0].0, ranges[0].1) by {
        assert(k > 0 ==> is_due(order, 0, k));
        assert(reads(result, k) == value);
    }
}

/// Once linked editing ends, no request from before brings ranges.
pub proof fn law_ended_linked_editing_stays_ended(
    before: InputState,
    after: InputState,
    request: LinkedEditingRequest,
    requested: Rope,
)
    requires
        before.awaits_linked(request, requested),
        without_linked(before.lsp, after.lsp),
    ensures
        !after.awaits_linked(request, requested),
{
}

} // verus!
