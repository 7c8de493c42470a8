//! What toggling a block comment twice does to a text.

use crate::bytes;
use crate::comment;
use crate::cursor::EditorSelection;
use crate::edit;
use crate::order;
use crate::rows;
use crate::text;
use vstd::prelude::*;
use vstd::utf8::*;

verus! {

/// The delimiter is not empty and has no white space.
pub open spec fn is_plain_delimiter(token: Seq<u8>) -> bool {
    &&& token.len() > 0
    &&& forall|i: int|
        0 <= i < token.len() ==> #[trigger] token[i] != 10 && token[i] != 13 && token[i] != 32
}

/// A delimiter does not occur across a space.
proof fn lemma_no_space(s: Seq<u8>, token: Seq<u8>, at: int, space: int)
    requires
        is_plain_delimiter(token),
        bytes::matches_at(s, at, token),
        0 <= space < s.len(),
        s[space] == 32,
    ensures
        at + token.len() <= space || space < at,
{
    if at <= space < at + token.len() {
        assert(s.subrange(at, at + token.len())[space - at] == 32);
    }
}

/// What occurs inside a part occurs in the part.
proof fn lemma_in_part(s: Seq<u8>, token: Seq<u8>, at: int, from: int, to: int)
    requires
        bytes::matches_at(s, at, token),
        0 <= from <= at,
        at + token.len() <= to <= s.len(),
    ensures
        bytes::matches_at(s.subrange(from, to), at - from, token),
{
    assert(s.subrange(from, to).subrange(at - from, at - from + token.len()) =~= s.subrange(
        at,
        at + token.len(),
    ));
}

/// The opening delimiter that is found is the one that was put in front of a
/// space, where none overlaps it and there is none right behind that.
proof fn lemma_opening(s: Seq<u8>, token: Seq<u8>, p: int, from: int, limit: int)
    requires
        is_plain_delimiter(token),
        0 <= from <= p,
        bytes::matches_at(s, p, token),
        p + token.len() < s.len(),
        s[p + token.len()] == 32,
        p <= limit,
        forall|x: int|
            p - token.len() < x < p ==> !#[trigger] bytes::matches_at(s, x, token),
        forall|x: int|
            p + token.len() < x <= limit ==> !#[trigger] bytes::matches_at(s, x, token),
    ensures
        comment::last_occurrence(s, from, token, limit) == Some(p),
    decreases p - from,
{
    bytes::lemma_next_match(s, from, token);
    let at = bytes::next_match(s, from, token)->Some_0;
    assert(bytes::next_match(s, from, token) is Some && at <= p);
    if at < p {
        lemma_opening(s, token, p, at + token.len(), limit);
    } else {
        let behind = p + token.len();
        bytes::lemma_next_match(s, behind, token);
        match bytes::next_match(s, behind, token) {
            Some(later) => {
                lemma_no_space(s, token, later, behind);
            },
            None => {},
        }
        assert(comment::last_occurrence(s, behind, token, limit) is None);
    }
}

/// The closing delimiter that is found is the one that was put behind a space,
/// where there is none right in front of that.
proof fn lemma_closing(s: Seq<u8>, token: Seq<u8>, space: int, from: int, minimum: int)
    requires
        is_plain_delimiter(token),
        0 <= from <= space + 1,
        0 <= space < s.len(),
        s[space] == 32,
        bytes::matches_at(s, space + 1, token),
        0 <= minimum <= space,
        space - token.len() <= minimum,
        !bytes::matches_at(s, space - token.len(), token),
    ensures
        comment::first_occurrence(s, from, token, minimum) == Some(space + 1),
    decreases space + 1 - from,
{
    bytes::lemma_next_match(s, from, token);
    let at = bytes::next_match(s, from, token)->Some_0;
    assert(bytes::next_match(s, from, token) is Some && at <= space + 1);
    lemma_no_space(s, token, at, space);
    if at < space + 1 {
        assert(at < minimum);
        lemma_closing(s, token, space, at + token.len(), minimum);
    }
}

/// A text has no delimiter where none occurs at any place.
proof fn lemma_contains_none(s: Seq<u8>, from: int, to: int, token: Seq<u8>)
    requires
        0 <= from <= to <= s.len(),
        forall|x: int|
            from <= x && x + token.len() <= to ==> !#[trigger] bytes::matches_at(s, x, token),
    ensures
        !comment::contains(s.subrange(from, to), token),
{
    let part = s.subrange(from, to);
    bytes::lemma_next_match(part, 0, token);
    if comment::contains(part, token) {
        let at = bytes::next_match(part, 0, token)->Some_0;
        assert(part.subrange(at, at + token.len()) =~= s.subrange(
            from + at,
            from + at + token.len(),
        ));
        assert(bytes::matches_at(s, from + at, token));
    }
}

/// The text between the delimiters that is in the row of the first one.
pub open spec fn text_behind_open(t: Seq<u8>, start: int, end: int) -> Seq<u8> {
    let row = text::row_at(t, start);
    if row == text::row_at(t, end) {
        t.subrange(start, end)
    } else {
        let place = start - text::line_start(t, row);
        rows::row_holding(t, row, place).skip(place)
    }
}

/// The text in the row of an offset up to there.
pub open spec fn start_of_row(t: Seq<u8>, o: int) -> Seq<u8> {
    t.subrange(text::line_start(t, text::row_at(t, o)), o)
}

/// The text between the delimiters that is in the row of the second one.
pub open spec fn text_before_close(t: Seq<u8>, start: int, end: int) -> Seq<u8> {
    let row = text::row_at(t, end);
    if text::row_at(t, start) == row {
        t.subrange(start, end)
    } else {
        start_of_row(t, end)
    }
}

/// The text in the row of an offset from there on.
pub open spec fn rest_of_row(t: Seq<u8>, o: int) -> Seq<u8> {
    let row = text::row_at(t, o);
    let place = o - text::line_start(t, row);
    rows::row_holding(t, row, place).skip(place)
}

/// Nothing in the rows where the delimiters go can be taken for one of them:
/// no opening delimiter that begins in the text before the first and ends in it,
/// none right behind its place, and no closing one between the two places.
pub open spec fn has_clear_rows(
    t: Seq<u8>,
    start: int,
    end: int,
    open: Seq<u8>,
    close: Seq<u8>,
) -> bool {
    let behind = text_behind_open(t, start, end);
    let before = text_before_close(t, start, end);
    let head = start_of_row(t, start);
    &&& forall|x: int|
        head.len() - open.len() < x < head.len() ==> !#[trigger] bytes::matches_at(
            head + open,
            x,
            open,
        )
    &&& forall|x: int| 0 <= x <= open.len() ==> !#[trigger] bytes::matches_at(behind, x, open)
    &&& forall|x: int| !#[trigger] bytes::matches_at(behind, x, close)
    &&& forall|x: int| !#[trigger] bytes::matches_at(before, x, close)
    &&& text::row_at(t, start) == text::row_at(t, end) ==> forall|y: int|
        0 <= y <= open.len() - (end - start) - 1 ==> !#[trigger] bytes::matches_at(
            close + rest_of_row(t, end),
            y,
            open,
        )
}

/// The text with delimiters around a part.
pub open spec fn wrapped(
    t: Seq<u8>,
    start: int,
    end: int,
    open: Seq<u8>,
    close: Seq<u8>,
) -> Seq<u8> {
    edit::replaced(
        edit::replaced(t, (end, end, seq![32u8] + close)),
        (start, start, open + seq![32u8]),
    )
}

/// The row of an offset in the content of a row.
pub(crate) proof fn lemma_row_of(t: Seq<u8>, row: int, k: int)
    requires
        0 <= row < text::line_count(t),
        0 <= k <= text::content_bytes(t, row).len(),
        text::is_boundary(t, text::line_start(t, row) + k),
    ensures
        text::row_at(t, text::line_start(t, row) + k) == row,
        text::line_start(t, row) + k <= t.len(),
{
    rows::lemma_content(t, row);
    text::lemma_line_start(t, row);
    text::lemma_line_end(t, row);
    let o = text::line_start(t, row) + k;
    text::lemma_floor_boundary(t, o);
    text::lemma_newlines_gap(t, text::line_start(t, row), o);
}

/// The places behind the first delimiter and before the second are boundaries.
proof fn lemma_wrapped_boundaries(t: Seq<u8>, start: int, end: int, open: Seq<u8>, close: Seq<u8>)
    requires
        valid_utf8(t),
        0 <= start <= end <= t.len(),
        text::is_boundary(t, start),
    ensures
        ({
            let after = wrapped(t, start, end, open, close);
            let more: int = open.len() + 1int;
            &&& text::is_boundary(after, start + more)
            &&& text::is_boundary(after, end + more)
            &&& after.len() == t.len() + more + 1 + close.len()
        }),
{
    let after = wrapped(t, start, end, open, close);
    let more: int = open.len() + 1int;
    assert(after[end + more] == 32);
    if start < end {
        assert(after[start + more] == t[start]);
        if start == 0 {
            assert(valid_first_scalar(t));
        }
    }
}

/// What the row with both delimiters reads.
proof fn lemma_wrapped_row(t: Seq<u8>, row: int, p: int, q: int, open: Seq<u8>, close: Seq<u8>)
    requires
        is_plain_delimiter(open),
        is_plain_delimiter(close),
        0 <= row < text::line_count(t),
        0 <= p <= q <= text::line_bytes(t, row).len(),
    ensures
        ({
            let line = text::line_start(t, row);
            let content = rows::row_holding(t, row, q);
            let after = wrapped(t, line + p, line + q, open, close);
            &&& text::line_count(after) == text::line_count(t)
            &&& text::line_start(after, row) == line
            &&& text::content_bytes(after, row) == content.take(p) + open + seq![32u8]
                + content.subrange(p, q) + seq![32u8] + (close + content.skip(q))
        }),
{
    let line = text::line_start(t, row);
    let content = rows::row_holding(t, row, q);
    let back = seq![32u8] + close;
    let front = open + seq![32u8];
    assert(back.last() == close.last());
    assert(front.last() == 32);
    rows::lemma_insert_in_row(t, row, q, back);
    let one = edit::replaced(t, (line + q, line + q, back));
    assert(text::content_bytes(one, row).len() == content.len() + back.len());
    rows::lemma_insert_in_row(one, row, p, front);
    let after = edit::replaced(one, (line + p, line + p, front));
    let middle = text::content_bytes(one, row);
    assert(text::content_bytes(after, row) == middle.take(p) + front + middle.skip(p));
    assert(text::line_start(after, row) == text::line_start(one, row));
    assert(middle.take(p) + front + middle.skip(p) =~= content.take(p) + open + seq![32u8]
        + content.subrange(p, q) + seq![32u8] + (close + content.skip(q)));
}

/// What the two rows with a delimiter each read.
proof fn lemma_two_wrapped_rows(
    t: Seq<u8>,
    first: int,
    last: int,
    p: int,
    q: int,
    open: Seq<u8>,
    close: Seq<u8>,
)
    requires
        is_plain_delimiter(open),
        is_plain_delimiter(close),
        0 <= first < last < text::line_count(t),
        0 <= p <= text::line_bytes(t, first).len(),
        0 <= q <= text::line_bytes(t, last).len(),
    ensures
        ({
            let s = rows::row_holding(t, first, p);
            let e = rows::row_holding(t, last, q);
            let start = text::line_start(t, first) + p;
            let end = text::line_start(t, last) + q;
            let after = wrapped(t, start, end, open, close);
            &&& text::line_count(after) == text::line_count(t)
            &&& text::line_start(after, first) == text::line_start(t, first)
            &&& text::line_start(after, last) == text::line_start(t, last) + open.len() + 1
            &&& text::content_bytes(after, first) == s.take(p) + open + seq![32u8] + s.skip(p)
            &&& text::content_bytes(after, last) == e.take(q) + seq![32u8] + (close + e.skip(q))
        }),
{
    let s = rows::row_holding(t, first, p);
    let e = rows::row_holding(t, last, q);
    let start = text::line_start(t, first) + p;
    let end = text::line_start(t, last) + q;
    let back = seq![32u8] + close;
    let front = open + seq![32u8];
    assert(back.last() == close.last());
    assert(front.last() == 32);
    rows::lemma_insert_in_row(t, last, q, back);
    let one = edit::replaced(t, (end, end, back));
    assert(text::line_bytes(one, first) == text::line_bytes(t, first));
    assert(text::line_start(one, first) == text::line_start(t, first));
    rows::lemma_insert_in_row(one, first, p, front);
    let after = edit::replaced(one, (start, start, front));
    assert(text::line_start(after, first) == text::line_start(one, first));
    assert(text::line_start(after, last) == text::line_start(one, last) + front.len());
    assert(text::line_start(one, last) == text::line_start(t, last));
    assert(text::content_bytes(after, last) == text::content_bytes(one, last));
    assert(s.take(p) + front + s.skip(p) =~= s.take(p) + open + seq![32u8] + s.skip(p));
    assert(e.take(q) + back + e.skip(q) =~= e.take(q) + seq![32u8] + (close + e.skip(q)));
}

/// Where an offset lies in its row.
proof fn lemma_place(t: Seq<u8>, o: int)
    requires
        0 <= o <= t.len(),
        text::is_boundary(t, o),
    ensures
        0 <= text::row_at(t, o) < text::line_count(t),
        0 <= text::line_start(t, text::row_at(t, o)) <= o,
        o - text::line_start(t, text::row_at(t, o)) <= text::line_bytes(
            t,
            text::row_at(t, o),
        ).len(),
        rows::row_holding(t, text::row_at(t, o), o - text::line_start(t, text::row_at(t, o))).take(
            o - text::line_start(t, text::row_at(t, o)),
        ) == start_of_row(t, o),
{
    text::lemma_row_at(t, o);
    text::lemma_floor_boundary(t, o);
    let row = text::row_at(t, o);
    text::lemma_line_start(t, row);
    text::lemma_line_end(t, row);
    let place = o - text::line_start(t, row);
    assert(rows::row_holding(t, row, place).take(place) =~= start_of_row(t, o));
}

/// The comment that is found from what is found in the two rows.
proof fn lemma_ranges(
    t: Seq<u8>,
    start: int,
    end: int,
    open: Seq<u8>,
    close: Seq<u8>,
    first: int,
    last: int,
    o: int,
    c: int,
)
    requires
        text::row_at(t, start) == first,
        text::row_at(t, end) == last,
        text::line_start(t, first) + o + open.len() + 1 == start,
        text::line_start(t, last) + c == end + 1,
        start <= end,
        ({
            let s = text::content_bytes(t, first);
            let e = text::content_bytes(t, last);
            &&& 0 <= o && o + open.len() < s.len()
            &&& s[o + open.len()] == 32
            &&& 0 < c && c + close.len() <= e.len()
            &&& e[c - 1] == 32
            &&& comment::last_occurrence(s, 0, open, o + open.len() + 1 + open.len()) == Some(o)
            &&& comment::first_occurrence(e, 0, close, if c - 1 >= close.len() {
                c - 1 - close.len()
            } else {
                0
            }) == Some(c)
            &&& !comment::closed_inside(s, e, first == last, o + open.len(), c, close)
        }),
    ensures
        comment::comment_ranges(t, start, end, open, close) == Some(
            seq![(start - open.len() - 1, start), (end, end + 1 + close.len())],
        ),
{
    reveal(comment::comment_ranges);
}

/// The comment that is found around a part in one row with delimiters around it.
proof fn lemma_found_in_row(
    t: Seq<u8>,
    start: int,
    end: int,
    open: Seq<u8>,
    close: Seq<u8>,
)
    requires
        valid_utf8(t),
        is_plain_delimiter(open),
        is_plain_delimiter(close),
        0 <= start <= end <= t.len(),
        text::is_boundary(t, start),
        text::is_boundary(t, end),
        text::row_at(t, start) == text::row_at(t, end),
        has_clear_rows(t, start, end, open, close),
    ensures
        ({
            let more: int = open.len() + 1int;
            comment::comment_ranges(
                wrapped(t, start, end, open, close),
                start + more,
                end + more,
                open,
                close,
            ) == Some(seq![(start, start + more), (end + more, end + more + 1 + close.len())])
        }),
{
    let row = text::row_at(t, start);
    lemma_place(t, start);
    lemma_place(t, end);
    let line = text::line_start(t, row);
    let p = start - line;
    let q = end - line;
    let after = wrapped(t, start, end, open, close);
    let more: int = open.len() + 1int;
    let content = rows::row_holding(t, row, q);
    text::lemma_line_end(t, row);
    lemma_wrapped_row(t, row, p, q, open, close);
    lemma_wrapped_boundaries(t, start, end, open, close);
    let s = text::content_bytes(after, row);
    let inner = content.subrange(p, q);
    assert(inner =~= t.subrange(start, end));
    assert(content.take(p) =~= start_of_row(t, start));
    let rest = close + content.skip(q);
    lemma_row_of(after, row, p + more);
    lemma_row_of(after, row, q + more);
    assert(rest.subrange(0, close.len() as int) =~= close);
    assert(inner == text_behind_open(t, start, end));
    assert(rest == close + rest_of_row(t, end));
    lemma_between(s, content.take(p), inner, rest, open, close);
    lemma_ranges(after, start + more, end + more, open, close, row, row, p, q + more + 1);
}

/// The delimiters that are found in a row with both of them.
proof fn lemma_between(
    s: Seq<u8>,
    head: Seq<u8>,
    inner: Seq<u8>,
    rest: Seq<u8>,
    open: Seq<u8>,
    close: Seq<u8>,
)
    requires
        is_plain_delimiter(open),
        is_plain_delimiter(close),
        s == head + open + seq![32u8] + inner + seq![32u8] + rest,
        bytes::matches_at(rest, 0, close),
        forall|x: int|
            head.len() - open.len() < x < head.len() ==> !#[trigger] bytes::matches_at(
                head + open,
                x,
                open,
            ),
        forall|x: int| 0 <= x <= open.len() ==> !#[trigger] bytes::matches_at(inner, x, open),
        forall|x: int| !#[trigger] bytes::matches_at(inner, x, close),
        forall|y: int|
            0 <= y <= open.len() - inner.len() - 1 ==> !#[trigger] bytes::matches_at(
                rest,
                y,
                open,
            ),
    ensures
        ({
            let from: int = head.len() + open.len() + 1int;
            let to: int = from + inner.len();
            &&& comment::last_occurrence(s, 0, open, from + open.len()) == Some(head.len() as int)
            &&& comment::first_occurrence(s, 0, close, if to >= close.len() {
                to - close.len()
            } else {
                0
            }) == Some(to + 1)
            &&& !comment::contains(s.subrange(from - 1, to + 1), close)
            &&& s[from - 1] == 32
            &&& s[to] == 32
            &&& to + 1 + close.len() <= s.len()
        }),
{
    let from: int = head.len() + open.len() + 1int;
    let to: int = from + inner.len();
    assert(s[from - 1] == 32);
    assert(s[to] == 32);
    assert(s.subrange(head.len() as int, from - 1) =~= open);
    assert(s.subrange(from, to) =~= inner);
    assert(s.subrange(to + 1, s.len() as int) =~= rest);
    assert(s.subrange(to + 1, to + 1 + close.len()) =~= rest.subrange(0, close.len() as int));
    assert forall|x: int| head.len() + open.len() < x <= from + open.len() implies !#[trigger] bytes::matches_at(
        s,
        x,
        open,
    ) by {
        if bytes::matches_at(s, x, open) {
            lemma_no_space(s, open, x, to);
            if x > to {
                lemma_in_part(s, open, x, to + 1, s.len() as int);
                assert(bytes::matches_at(rest, x - to - 1, open));
            } else {
                lemma_in_part(s, open, x, from, to);
                assert(bytes::matches_at(inner, x - from, open));
            }
        }
    }
    assert(s.subrange(0, from - 1) =~= head + open);
    assert forall|x: int| head.len() - open.len() < x < head.len() implies !#[trigger] bytes::matches_at(
        s,
        x,
        open,
    ) by {
        if bytes::matches_at(s, x, open) {
            lemma_in_part(s, open, x, 0, from - 1);
            assert(bytes::matches_at(head + open, x - 0, open));
        }
    }
    lemma_opening(s, open, head.len() as int, 0, from + open.len());
    assert forall|x: int| from - 1 <= x && x + close.len() <= to + 1 implies !#[trigger] bytes::matches_at(
        s,
        x,
        close,
    ) by {
        if bytes::matches_at(s, x, close) {
            lemma_no_space(s, close, x, to);
            lemma_no_space(s, close, x, from - 1);
            lemma_in_part(s, close, x, from, to);
            assert(bytes::matches_at(inner, x - from, close));
        }
    }
    lemma_contains_none(s, from - 1, to + 1, close);
    if bytes::matches_at(s, to - close.len(), close) {
        lemma_no_space(s, close, to - close.len(), from - 1);
        assert(false);
    }
    lemma_closing(s, close, to, 0, if to >= close.len() {
        to - close.len()
    } else {
        0
    });
}

/// The opening delimiter that is found in a row that has only that one.
proof fn lemma_behind(s: Seq<u8>, head: Seq<u8>, inner: Seq<u8>, open: Seq<u8>, close: Seq<u8>)
    requires
        is_plain_delimiter(open),
        is_plain_delimiter(close),
        s == head + open + seq![32u8] + inner,
        forall|x: int|
            head.len() - open.len() < x < head.len() ==> !#[trigger] bytes::matches_at(
                head + open,
                x,
                open,
            ),
        forall|x: int| 0 <= x <= open.len() ==> !#[trigger] bytes::matches_at(inner, x, open),
        forall|x: int| !#[trigger] bytes::matches_at(inner, x, close),
    ensures
        ({
            let from: int = head.len() + open.len() + 1int;
            &&& comment::last_occurrence(s, 0, open, from + open.len()) == Some(head.len() as int)
            &&& !comment::contains(s.subrange(from - 1, s.len() as int), close)
            &&& s[from - 1] == 32
        }),
{
    let from: int = head.len() + open.len() + 1int;
    let to = s.len() as int;
    assert(s[from - 1] == 32);
    assert(s.subrange(head.len() as int, from - 1) =~= open);
    assert(s.subrange(from, to) =~= inner);
    assert forall|x: int| head.len() + open.len() < x <= from + open.len() implies !#[trigger] bytes::matches_at(
        s,
        x,
        open,
    ) by {
        if bytes::matches_at(s, x, open) {
            lemma_in_part(s, open, x, from, to);
            assert(bytes::matches_at(inner, x - from, open));
        }
    }
    assert(s.subrange(0, from - 1) =~= head + open);
    assert forall|x: int| head.len() - open.len() < x < head.len() implies !#[trigger] bytes::matches_at(
        s,
        x,
        open,
    ) by {
        if bytes::matches_at(s, x, open) {
            lemma_in_part(s, open, x, 0, from - 1);
            assert(bytes::matches_at(head + open, x - 0, open));
        }
    }
    lemma_opening(s, open, head.len() as int, 0, from + open.len());
    assert forall|x: int| from - 1 <= x && x + close.len() <= to implies !#[trigger] bytes::matches_at(
        s,
        x,
        close,
    ) by {
        if bytes::matches_at(s, x, close) {
            lemma_no_space(s, close, x, from - 1);
            lemma_in_part(s, close, x, from, to);
            assert(bytes::matches_at(inner, x - from, close));
        }
    }
    lemma_contains_none(s, from - 1, to, close);
}

/// The closing delimiter that is found in a row that has only that one.
proof fn lemma_before(e: Seq<u8>, inner: Seq<u8>, rest: Seq<u8>, close: Seq<u8>)
    requires
        is_plain_delimiter(close),
        e == inner + seq![32u8] + rest,
        bytes::matches_at(rest, 0, close),
        forall|x: int| !#[trigger] bytes::matches_at(inner, x, close),
    ensures
        ({
            let to = inner.len() as int;
            &&& comment::first_occurrence(e, 0, close, if to >= close.len() {
                to - close.len()
            } else {
                0
            }) == Some(to + 1)
            &&& !comment::contains(e.subrange(0, to + 1), close)
            &&& e[to] == 32
            &&& to + 1 + close.len() <= e.len()
        }),
{
    let to = inner.len() as int;
    assert(e[to] == 32);
    assert(e.subrange(0, to) =~= inner);
    assert(e.subrange(to + 1, to + 1 + close.len()) =~= rest.subrange(0, close.len() as int));
    assert forall|x: int| 0 <= x && x + close.len() <= to + 1 implies !#[trigger] bytes::matches_at(
        e,
        x,
        close,
    ) by {
        if bytes::matches_at(e, x, close) {
            lemma_no_space(e, close, x, to);
            lemma_in_part(e, close, x, 0, to);
            assert(bytes::matches_at(inner, x - 0, close));
        }
    }
    lemma_contains_none(e, 0, to + 1, close);
    lemma_closing(e, close, to, 0, if to >= close.len() {
        to - close.len()
    } else {
        0
    });
}

/// The comment that is found around a part of several rows with delimiters
/// around it.
proof fn lemma_found_in_rows(t: Seq<u8>, start: int, end: int, open: Seq<u8>, close: Seq<u8>)
    requires
        valid_utf8(t),
        is_plain_delimiter(open),
        is_plain_delimiter(close),
        0 <= start <= end <= t.len(),
        text::is_boundary(t, start),
        text::is_boundary(t, end),
        text::row_at(t, start) != text::row_at(t, end),
        has_clear_rows(t, start, end, open, close),
    ensures
        ({
            let more: int = open.len() + 1int;
            comment::comment_ranges(
                wrapped(t, start, end, open, close),
                start + more,
                end + more,
                open,
                close,
            ) == Some(seq![(start, start + more), (end + more, end + more + 1 + close.len())])
        }),
{
    let first = text::row_at(t, start);
    let last = text::row_at(t, end);
    lemma_place(t, start);
    lemma_place(t, end);
    text::lemma_row_at_monotonic(t, start, end);
    let p = start - text::line_start(t, first);
    let q = end - text::line_start(t, last);
    let after = wrapped(t, start, end, open, close);
    let more: int = open.len() + 1int;
    lemma_two_wrapped_rows(t, first, last, p, q, open, close);
    lemma_wrapped_boundaries(t, start, end, open, close);
    let s = text::content_bytes(after, first);
    let e = text::content_bytes(after, last);
    let head = rows::row_holding(t, first, p).take(p);
    let rest = close + rows::row_holding(t, last, q).skip(q);
    assert(rest.subrange(0, close.len() as int) =~= close);
    lemma_row_of(after, first, p + more);
    lemma_row_of(after, last, q);
    lemma_behind(s, head, text_behind_open(t, start, end), open, close);
    lemma_before(e, text_before_close(t, start, end), rest, close);
    lemma_ranges(after, start + more, end + more, open, close, first, last, p, q + 1);
}

/// Sorted keys stay in their order.
proof fn lemma_pair_order(keys: Seq<(int, int)>)
    requires
        keys.len() == 2,
        order::key_le(keys[0], keys[1]),
    ensures
        order::sorted_order(keys, 2) == seq![0int, 1int],
{
    reveal_with_fuel(order::sorted_order, 3);
    reveal_with_fuel(order::insert_position, 2);
    let one = order::sorted_order(keys, 1);
    assert(one =~= seq![0int]);
    assert(order::sorted_order(keys, 2) =~= seq![0int, 1int]);
}

/// A single key is in order.
pub(crate) proof fn lemma_single_order(keys: Seq<(int, int)>)
    requires
        keys.len() == 1,
    ensures
        order::sorted_order(keys, 1) == seq![0int],
{
    reveal_with_fuel(order::sorted_order, 2);
    reveal_with_fuel(order::insert_position, 2);
    assert(order::sorted_order(keys, 1) =~= seq![0int]);
}

/// Two edits one behind the other stay in their order.
proof fn lemma_pair(a: (int, int, Seq<u8>), b: (int, int, Seq<u8>))
    requires
        a.0 <= a.1 <= b.0 <= b.1,
    ensures
        ({
            let edits = seq![a, b];
            &&& edit::sorted_edits(edits) == edits
            &&& order::sorted_order(edit::edit_keys(edits), 2) == seq![0int, 1int]
            &&& !edit::has_overlap(edits)
            &&& edit::growth(edits, 0) == 0
            &&& edit::growth(edits, 1) == a.2.len() - (a.1 - a.0)
        }),
{
    let edits = seq![a, b];
    lemma_pair_order(edit::edit_keys(edits));
    assert(edit::sorted_edits(edits) =~= edits);
    reveal_with_fuel(edit::added, 2);
    reveal_with_fuel(edit::removed, 2);
}

/// What toggling does around a selection that lies in no block comment.
proof fn lemma_wrapping(
    t: Seq<u8>,
    selection: EditorSelection,
    open: Seq<u8>,
    close: Seq<u8>,
)
    requires
        open.len() > 0,
        close.len() > 0,
        comment::is_valid_selection(t, selection),
        comment::comment_around(t, selection, open, close) is None,
        t.len() + open.len() + close.len() + 2 <= usize::MAX,
    ensures
        comment::toggle_block_plan(t, seq![selection], open, close) is Some,
        ({
            let start = selection.range.start as int;
            let end = selection.range.end as int;
            let more: int = open.len() + 1int;
            let (edits, after) = comment::toggle_block_plan(
                t,
                seq![selection],
                open,
                close,
            )->Some_0;
            &&& edit::applied(t, edits) == wrapped(t, start, end, open, close)
            &&& after.len() == 1
            &&& after[0].range.start == start + more
            &&& after[0].range.end == end + more
            &&& after[0].reversed == (selection.reversed && start < end)
        }),
{
    let start = selection.range.start as int;
    let end = selection.range.end as int;
    let all = seq![selection];
    let edits = comment::block_edits(t, all, open, close, 1);
    reveal_with_fuel(comment::block_edits, 2);
    assert(edits =~= comment::block_edits_for(t, selection, open, close));
    assert(comment::block_edits(t, all, open, close, 0).len() == 0);
    reveal_with_fuel(edit::applied, 3);
    if start == end {
        let e = (start, start, open + seq![32u8, 32u8] + close);
        assert(edits =~= seq![e]);
        lemma_single_order(edit::edit_keys(edits));
        assert(edit::sorted_edits(edits) =~= edits);
        assert(edits.drop_last() =~= Seq::empty());
        assert(edit::replaced(t, e) =~= wrapped(t, start, end, open, close));
        assert(edit::growth(edits, 0) == 0);
        assert(seq![0int].index_of(0) == 0) by {
            assert(seq![0int][0] == 0);
        }
    } else {
        let a = (start, start, open + seq![32u8]);
        let b = (end, end, seq![32u8] + close);
        assert(edits =~= seq![a, b]);
        lemma_pair(a, b);
        assert(edits.drop_last() =~= seq![a]);
        assert(edits.drop_last().drop_last() =~= Seq::empty());
        assert(seq![0int, 1int].index_of(0) == 0) by {
            assert(seq![0int, 1int][0] == 0);
        }
        assert(seq![0int, 1int].index_of(1) == 1) by {
            assert(seq![0int, 1int][1] == 1);
        }
    }
}

/// What toggling does around a selection that lies between the delimiters of a
/// comment.
proof fn lemma_unwrapping(
    t: Seq<u8>,
    selection: EditorSelection,
    open: Seq<u8>,
    close: Seq<u8>,
    at: int,
    more: int,
    less: int,
)
    requires
        open.len() > 0,
        close.len() > 0,
        comment::is_valid_selection(t, selection),
        0 <= at,
        0 < more,
        0 < less,
        selection.range.start == at + more,
        selection.range.end + less <= t.len(),
        t.len() <= usize::MAX,
        comment::comment_around(t, selection, open, close) == Some(
            seq![
                (at, selection.range.start as int),
                (selection.range.end as int, selection.range.end + less),
            ],
        ),
    ensures
        comment::toggle_block_plan(t, seq![selection], open, close) is Some,
        ({
            let end = selection.range.end as int;
            let (edits, after) = comment::toggle_block_plan(
                t,
                seq![selection],
                open,
                close,
            )->Some_0;
            &&& edit::applied(t, edits) == t.subrange(0, at) + t.subrange(at + more, end)
                + t.subrange(end + less, t.len() as int)
            &&& after.len() == 1
            &&& after[0].range.start == at
            &&& after[0].range.end == end - more
            &&& after[0].reversed == selection.reversed
        }),
{
    let start = selection.range.start as int;
    let end = selection.range.end as int;
    let all = seq![selection];
    let edits = comment::block_edits(t, all, open, close, 1);
    reveal_with_fuel(comment::block_edits, 2);
    assert(edits =~= comment::block_edits_for(t, selection, open, close));
    let a = (at, start, Seq::<u8>::empty());
    let b = (end, end + less, Seq::<u8>::empty());
    assert(edits =~= seq![a, b]);
    lemma_pair(a, b);
    reveal_with_fuel(edit::applied, 3);
    reveal_with_fuel(comment::moved_past, 3);
    assert(edits.drop_last() =~= seq![a]);
    assert(edits.drop_last().drop_last() =~= Seq::empty());
    assert(edit::applied(t, edits) =~= t.subrange(0, at) + t.subrange(at + more, end) + t.subrange(
        end + less,
        t.len() as int,
    ));
}

/// Without the delimiters the text reads as it did before.
proof fn lemma_unwrapped(t: Seq<u8>, start: int, end: int, open: Seq<u8>, close: Seq<u8>)
    requires
        0 <= start <= end <= t.len(),
    ensures
        ({
            let after = wrapped(t, start, end, open, close);
            let more: int = open.len() + 1int;
            after.subrange(0, start) + after.subrange(start + more, end + more) + after.subrange(
                end + more + (1int + close.len()),
                after.len() as int,
            ) == t
        }),
{
    let after = wrapped(t, start, end, open, close);
    let more: int = open.len() + 1int;
    assert(after.subrange(0, start) + after.subrange(start + more, end + more) + after.subrange(
        end + more + (1int + close.len()),
        after.len() as int,
    ) =~= t);
}

/// The comment that is found around a part with delimiters around it.
proof fn lemma_found(t: Seq<u8>, start: int, end: int, open: Seq<u8>, close: Seq<u8>)
    requires
        valid_utf8(t),
        is_plain_delimiter(open),
        is_plain_delimiter(close),
        0 <= start <= end <= t.len(),
        text::is_boundary(t, start),
        text::is_boundary(t, end),
        has_clear_rows(t, start, end, open, close),
    ensures
        ({
            let more: int = open.len() + 1int;
            comment::comment_ranges(
                wrapped(t, start, end, open, close),
                start + more,
                end + more,
                open,
                close,
            ) == Some(seq![(start, start + more), (end + more, end + more + (1int + close.len()))])
        }),
{
    if text::row_at(t, start) == text::row_at(t, end) {
        lemma_found_in_row(t, start, end, open, close);
    } else {
        lemma_found_in_rows(t, start, end, open, close);
    }
}

/// Toggling a block comment for a selection that lies in none puts delimiters
/// around it; toggling again for the selection that this leaves gives the text
/// and the selection back. No caret is left with a direction.
pub proof fn law_toggling_block_comment_twice(
    t: Seq<u8>,
    selection: EditorSelection,
    open: Seq<u8>,
    close: Seq<u8>,
)
    requires
        valid_utf8(t),
        is_plain_delimiter(open),
        is_plain_delimiter(close),
        comment::is_valid_selection(t, selection),
        comment::comment_around(t, selection, open, close) is None,
        has_clear_rows(
            t,
            selection.range.start as int,
            selection.range.end as int,
            open,
            close,
        ),
        t.len() + open.len() + close.len() + 2 <= usize::MAX,
    ensures
        comment::toggle_block_plan(t, seq![selection], open, close) is Some,
        ({
            let (edits, inside) = comment::toggle_block_plan(
                t,
                seq![selection],
                open,
                close,
            )->Some_0;
            let commented = edit::applied(t, edits);
            let again = comment::toggle_block_plan(commented, inside, open, close);
            &&& commented != t
            &&& again is Some
            &&& edit::applied(commented, (again->Some_0).0) == t
            &&& (again->Some_0).1 == seq![
                (EditorSelection {
                    range: selection.range,
                    reversed: selection.reversed && selection.range.start < selection.range.end,
                }),
            ]
        }),
{
    let start = selection.range.start as int;
    let end = selection.range.end as int;
    let more: int = open.len() + 1int;
    let after = wrapped(t, start, end, open, close);
    lemma_wrapping(t, selection, open, close);
    lemma_wrapped_boundaries(t, start, end, open, close);
    lemma_found(t, start, end, open, close);
    lemma_unwrapped(t, start, end, open, close);
    let inside = (comment::toggle_block_plan(t, seq![selection], open, close)->Some_0).1;
    assert(inside =~= seq![inside[0]]);
    lemma_unwrapping(after, inside[0], open, close, start, more, 1int + close.len());
    let back = (comment::toggle_block_plan(after, inside, open, close)->Some_0).1;
    assert(back =~= seq![
        EditorSelection { range: selection.range, reversed: selection.reversed && start < end },
    ]);
}

/// Text whose bytes begin with those of another begins with its characters.
proof fn lemma_begins(q: Seq<char>, b: Seq<char>)
    requires
        encode_utf8(b).len() <= encode_utf8(q).len(),
        encode_utf8(q).subrange(0, encode_utf8(b).len() as int) == encode_utf8(b),
    ensures
        b.len() <= q.len(),
        q.take(b.len() as int) == b,
    decreases b.len(),
{
    let eq = encode_utf8(q);
    let eb = encode_utf8(b);
    if b.len() > 0 {
        encode_utf8_first_scalar(b);
        assert(eb.len() > 0);
        assert(q.len() > 0) by {
            if q.len() == 0 {
                assert(eq.len() == 0);
            }
        }
        encode_utf8_first_scalar(q);
        assert forall|i: int| 0 <= i < eb.len() implies eq[i] == eb[i] by {
            assert(eq.subrange(0, eb.len() as int)[i] == eq[i]);
        }
        assert(eq[0] == eb[0]);
        let n = length_of_first_scalar(eb);
        assert(length_of_first_scalar(eq) == n);
        assert(decode_first_scalar(eq) == decode_first_scalar(eb));
        char_u32_cast(b[0], decode_first_scalar(eb));
        char_u32_cast(q[0], decode_first_scalar(eb));
        assert(q[0] == b[0]);
        let qr = q.drop_first();
        let br = b.drop_first();
        assert(eq =~= encode_scalar(q[0] as u32) + encode_utf8(qr));
        assert(eb =~= encode_scalar(b[0] as u32) + encode_utf8(br));
        assert(encode_utf8(qr).subrange(0, encode_utf8(br).len() as int) =~= encode_utf8(br)) by {
            assert forall|i: int| 0 <= i < encode_utf8(br).len() implies encode_utf8(qr)[i]
                == encode_utf8(br)[i] by {
                assert(eq[n + i] == eb[n + i]);
            }
        }
        lemma_begins(qr, br);
        assert(q.take(b.len() as int) =~= b) by {
            assert forall|k: int| 0 <= k < b.len() implies q[k] == b[k] by {
                if k > 0 {
                    assert(qr.take(br.len() as int)[k - 1] == br[k - 1]);
                }
            }
        }
    } else {
        assert(q.take(0) =~= b);
    }
}

/// Text whose bytes occur in those of another occurs in it.
proof fn lemma_occurs(a: Seq<char>, x: int, b: Seq<char>) -> (i: int)
    requires
        b.len() > 0,
        bytes::matches_at(encode_utf8(a), x, encode_utf8(b)),
    ensures
        0 <= i,
        i + b.len() <= a.len(),
        a.subrange(i, i + b.len()) == b,
        encode_utf8(a.take(i)).len() == x,
{
    let s = encode_utf8(a);
    let eb = encode_utf8(b);
    encode_utf8_valid_utf8(a);
    encode_utf8_first_scalar(b);
    assert(eb.len() > 0);
    assert(s.subrange(x, x + eb.len())[0] == s[x]);
    assert(!is_continuation_byte(eb[0]));
    is_char_boundary_iff_not_is_continuation_byte(s, x);
    valid_utf8_split(s, x);
    decode_utf8_split(s, x);
    let head = s.subrange(0, x);
    let tail = s.subrange(x, s.len() as int);
    let p = decode_utf8(head);
    let q = decode_utf8(tail);
    encode_utf8_decode_utf8(a);
    decode_utf8_encode_utf8(head);
    decode_utf8_encode_utf8(tail);
    assert(a =~= p + q);
    assert(tail.subrange(0, eb.len() as int) =~= s.subrange(x, x + eb.len()));
    lemma_begins(q, b);
    let i = p.len() as int;
    assert(a.take(i) =~= p);
    assert(a.subrange(i, i + b.len()) =~= q.take(b.len() as int));
    i
}

/// The characters of a part of a text.
proof fn lemma_part_chars(text: Seq<char>, from: int, to: int) -> (part: (int, int))
    requires
        0 <= from <= to <= encode_utf8(text).len(),
        text::is_boundary(encode_utf8(text), from),
        text::is_boundary(encode_utf8(text), to),
    ensures
        0 <= part.0 <= part.1 <= text.len(),
        encode_utf8(text.subrange(part.0, part.1)) == encode_utf8(text).subrange(from, to),
{
    let t = encode_utf8(text);
    encode_utf8_valid_utf8(text);
    encode_utf8_decode_utf8(text);
    text::lemma_boundary(t, from);
    valid_utf8_split(t, from);
    decode_utf8_split(t, from);
    text::lemma_valid_subrange(t, from, to);
    let tail = t.subrange(from, t.len() as int);
    text::lemma_boundary(tail, to - from);
    valid_utf8_split(tail, to - from);
    decode_utf8_split(tail, to - from);
    let middle = tail.subrange(0, to - from);
    assert(middle =~= t.subrange(from, to));
    let a = decode_utf8(t.subrange(0, from));
    let b = decode_utf8(middle);
    let c = decode_utf8(tail.subrange(to - from, tail.len() as int));
    decode_utf8_encode_utf8(middle);
    assert(text =~= a + (b + c));
    assert(text.subrange(a.len() as int, (a.len() + b.len()) as int) =~= b);
    (a.len() as int, (a.len() + b.len()) as int)
}

/// No character of the one occurs in the other.
pub open spec fn has_none_of(text: Seq<char>, token: Seq<char>) -> bool {
    forall|i: int, k: int|
        0 <= i < text.len() && 0 <= k < token.len() ==> #[trigger] text[i] != #[trigger] token[k]
}

/// A delimiter of characters: not empty, and without white space.
pub open spec fn is_delimiter(token: Seq<char>) -> bool {
    &&& token.len() > 0
    &&& forall|i: int|
        0 <= i < token.len() ==> #[trigger] token[i] != '\n' && token[i] != '\r' && token[i] != ' '
}

/// What holds no character of a delimiter does not hold the delimiter.
proof fn lemma_none_occurs(text: Seq<char>, x: int, token: Seq<char>)
    requires
        token.len() > 0,
        has_none_of(text, token),
    ensures
        !bytes::matches_at(encode_utf8(text), x, encode_utf8(token)),
{
    if bytes::matches_at(encode_utf8(text), x, encode_utf8(token)) {
        let i = lemma_occurs(text, x, token);
        assert(text.subrange(i, i + token.len())[0] == token[0]);
        assert(text[i] == token[0]);
    }
}

/// Nor does a part of it.
proof fn lemma_none_in_part(text: Seq<char>, from: int, to: int, x: int, token: Seq<char>)
    requires
        token.len() > 0,
        has_none_of(text, token),
        0 <= from <= to <= encode_utf8(text).len(),
    ensures
        !bytes::matches_at(encode_utf8(text).subrange(from, to), x, encode_utf8(token)),
{
    let t = encode_utf8(text);
    let b = encode_utf8(token);
    if bytes::matches_at(t.subrange(from, to), x, b) {
        assert(t.subrange(from, to).subrange(x, x + b.len()) =~= t.subrange(
            from + x,
            from + x + b.len(),
        ));
        lemma_none_occurs(text, from + x, token);
    }
}

/// Where one delimiter stands right behind such a text, it occurs nowhere else.
proof fn lemma_first_at_end(text: Seq<char>, x: int, token: Seq<char>)
    requires
        token.len() > 0,
        has_none_of(text, token),
        x < encode_utf8(text).len(),
    ensures
        !bytes::matches_at(encode_utf8(text) + encode_utf8(token), x, encode_utf8(token)),
{
    text::lemma_encode_concat(text, token);
    let all = text + token;
    if bytes::matches_at(encode_utf8(all), x, encode_utf8(token)) {
        let i = lemma_occurs(all, x, token);
        assert(i < text.len()) by {
            if i >= text.len() {
                assert(all.take(i) =~= text + all.subrange(text.len() as int, i));
                text::lemma_encode_concat(text, all.subrange(text.len() as int, i));
            }
        }
        assert(all.subrange(i, i + token.len())[0] == all[i]);
        assert(all[i] == text[i]);
    }
}

/// Where such a text follows one delimiter, the other occurs at most in that.
proof fn lemma_only_in_token(close: Seq<char>, rest: Seq<char>, y: int, open: Seq<char>)
    requires
        open.len() > 0,
        has_none_of(rest, open),
        forall|i: int|
            0 <= i && i + open.len() <= close.len() ==> #[trigger] close.subrange(
                i,
                i + open.len(),
            ) != open,
    ensures
        !bytes::matches_at(encode_utf8(close) + encode_utf8(rest), y, encode_utf8(open)),
{
    text::lemma_encode_concat(close, rest);
    let all = close + rest;
    if bytes::matches_at(encode_utf8(all), y, encode_utf8(open)) {
        let i = lemma_occurs(all, y, open);
        let part = all.subrange(i, i + open.len());
        let last = i + open.len() - 1;
        if last < close.len() {
            assert(part =~= close.subrange(i, i + open.len()));
        } else {
            assert(part[open.len() - 1] == all[last]);
            assert(all[last] == rest[last - close.len()]);
            assert(open[open.len() - 1] == rest[last - close.len()]);
        }
    }
}

/// The bytes of a delimiter have no white space.
proof fn lemma_plain_bytes(token: Seq<char>)
    requires
        is_delimiter(token),
    ensures
        is_plain_delimiter(encode_utf8(token)),
{
    let b = encode_utf8(token);
    encode_utf8_first_scalar(token);
    assert(b.len() > 0);
    assert forall|i: int| 0 <= i < b.len() implies #[trigger] b[i] != 10 && b[i] != 13 && b[i]
        != 32 by {
        if b[i] < 128 {
            lemma_ascii(token, i);
            let k = choose|k: int|
                0 <= k < token.len() && #[trigger] token[k] as u32 == b[i] as u32;
            char_u32_cast(token[k], b[i] as u32);
            char_u32_cast('\n', 10u32);
            char_u32_cast('\r', 13u32);
            char_u32_cast(' ', 32u32);
            assert(token[k] != '\n' && token[k] != '\r' && token[k] != ' ');
        }
    }
}

/// An ASCII byte of a text is one of its characters.
pub proof fn lemma_ascii(token: Seq<char>, i: int)
    requires
        0 <= i < encode_utf8(token).len(),
        encode_utf8(token)[i] < 128,
    ensures
        exists|k: int|
            0 <= k < token.len() && #[trigger] token[k] as u32 == encode_utf8(token)[i] as u32,
    decreases token.len(),
{
    let b = encode_utf8(token);
    encode_utf8_first_scalar(token);
    let n = length_of_first_scalar(b);
    let rest = token.drop_first();
    assert(b =~= encode_scalar(token[0] as u32) + encode_utf8(rest));
    if i < n {
        assert(i == 0 && n == 1);
        let byte = b[0];
        assert((byte & 0x7F) as u32 == byte as u32) by (bit_vector)
            requires
                byte < 128,
        ;
        assert(decode_first_scalar(b) == byte as u32);
        assert(token[0] as u32 == b[i] as u32);
    } else {
        assert(encode_utf8(rest)[i - n] == b[i]);
        lemma_ascii(rest, i - n);
        let k = choose|k: int|
            0 <= k < rest.len() && #[trigger] rest[k] as u32 == encode_utf8(rest)[i - n] as u32;
        assert(token[k + 1] == rest[k]);
    }
}

/// What follows an offset in its row is a part of the text.
proof fn lemma_rest_of_row(t: Seq<u8>, o: int) -> (to: int)
    requires
        valid_utf8(t),
        0 <= o <= t.len(),
        text::is_boundary(t, o),
    ensures
        o <= to <= t.len(),
        text::is_boundary(t, to),
        rest_of_row(t, o) == t.subrange(o, to),
{
    let row = text::row_at(t, o);
    lemma_place(t, o);
    text::lemma_line_boundaries(t, row);
    let place = o - text::line_start(t, row);
    let to = text::line_start(t, row) + rows::row_holding(t, row, place).len();
    assert(rest_of_row(t, o) =~= t.subrange(o, to));
    to
}

/// Rows of a text that has no character of the delimiters are clear.
proof fn lemma_clear(text: Seq<char>, start: int, end: int, open: Seq<char>, close: Seq<char>)
    requires
        is_delimiter(open),
        is_delimiter(close),
        has_none_of(text, open),
        has_none_of(text, close),
        forall|i: int|
            0 <= i && i + open.len() <= close.len() ==> #[trigger] close.subrange(
                i,
                i + open.len(),
            ) != open,
        0 <= start <= end <= encode_utf8(text).len(),
        text::is_boundary(encode_utf8(text), start),
        text::is_boundary(encode_utf8(text), end),
    ensures
        has_clear_rows(
            encode_utf8(text),
            start,
            end,
            encode_utf8(open),
            encode_utf8(close),
        ),
{
    let t = encode_utf8(text);
    let o = encode_utf8(open);
    let c = encode_utf8(close);
    encode_utf8_valid_utf8(text);
    lemma_place(t, start);
    lemma_place(t, end);
    let behind = text_behind_open(t, start, end);
    let before = text_before_close(t, start, end);
    let head = start_of_row(t, start);
    let first = text::line_start(t, text::row_at(t, start));
    let last = text::line_start(t, text::row_at(t, end));
    let behind_end = lemma_rest_of_row(t, start);
    let rest_end = lemma_rest_of_row(t, end);
    text::lemma_line_boundaries(t, text::row_at(t, start));
    let one_row = text::row_at(t, start) == text::row_at(t, end);
    let stop = if one_row {
        end
    } else {
        behind_end
    };
    let from = if one_row {
        start
    } else {
        last
    };
    assert(behind == t.subrange(start, stop));
    assert(before == t.subrange(from, end));
    assert forall|x: int| head.len() - o.len() < x < head.len() implies !#[trigger] bytes::matches_at(
        head + o,
        x,
        o,
    ) by {
        let (a, b) = lemma_part_chars(text, first, start);
        lemma_first_at_end(text.subrange(a, b), x, open);
    }
    assert forall|x: int| 0 <= x <= o.len() implies !#[trigger] bytes::matches_at(behind, x, o) by {
        lemma_none_in_part(text, start, stop, x, open);
    }
    assert forall|x: int| !#[trigger] bytes::matches_at(behind, x, c) by {
        lemma_none_in_part(text, start, stop, x, close);
    }
    assert forall|x: int| !#[trigger] bytes::matches_at(before, x, c) by {
        lemma_none_in_part(text, from, end, x, close);
    }
    assert forall|y: int| !#[trigger] bytes::matches_at(c + rest_of_row(t, end), y, o) by {
        let (a, b) = lemma_part_chars(text, end, rest_end);
        lemma_only_in_token(close, text.subrange(a, b), y, open);
    }
}

/// A text that has no character of the opening delimiter has no comment.
proof fn lemma_no_comment(
    text: Seq<char>,
    selection: EditorSelection,
    open: Seq<char>,
    close: Seq<u8>,
)
    requires
        open.len() > 0,
        has_none_of(text, open),
        comment::is_valid_selection(encode_utf8(text), selection),
    ensures
        comment::comment_around(encode_utf8(text), selection, encode_utf8(open), close) is None,
{
    reveal(comment::comment_ranges);
    let t = encode_utf8(text);
    let o = encode_utf8(open);
    encode_utf8_valid_utf8(text);
    encode_utf8_first_scalar(open);
    assert(o.len() > 0);
    let start = selection.range.start as int;
    let row = text::row_at(t, start);
    lemma_place(t, start);
    text::lemma_line_boundaries(t, row);
    let content = text::content_bytes(t, row);
    let line = text::line_start(t, row);
    let local = edit::min_int(start - line, content.len() as int);
    comment::lemma_last_occurrence(content, 0, o, local + o.len());
    match comment::last_occurrence(content, 0, o, local + o.len()) {
        Some(at) => {
            lemma_none_in_part(text, line, line + content.len(), at, open);
        },
        None => {},
    }
}

/// In a text that has no character of the delimiters, toggling a block comment
/// for a selection puts the delimiters around it, and toggling again for the
/// selection that this leaves gives the text and the selection back; the opening
/// delimiter is no part of the closing one. No caret is left with a direction.
pub proof fn law_toggling_block_comment_of_other_text(
    text: Seq<char>,
    selection: EditorSelection,
    open: Seq<char>,
    close: Seq<char>,
)
    requires
        is_delimiter(open),
        is_delimiter(close),
        has_none_of(text, open),
        has_none_of(text, close),
        forall|i: int|
            0 <= i && i + open.len() <= close.len() ==> #[trigger] close.subrange(
                i,
                i + open.len(),
            ) != open,
        comment::is_valid_selection(encode_utf8(text), selection),
        encode_utf8(text).len() + encode_utf8(open).len() + encode_utf8(close).len() + 2
            <= usize::MAX,
    ensures
        comment::toggle_block_plan(
            encode_utf8(text),
            seq![selection],
            encode_utf8(open),
            encode_utf8(close),
        ) is Some,
        ({
            let t = encode_utf8(text);
            let o = encode_utf8(open);
            let c = encode_utf8(close);
            let (edits, inside) = comment::toggle_block_plan(t, seq![selection], o, c)->Some_0;
            let commented = edit::applied(t, edits);
            let again = comment::toggle_block_plan(commented, inside, o, c);
            &&& commented == wrapped(
                t,
                selection.range.start as int,
                selection.range.end as int,
                o,
                c,
            )
            &&& again is Some
            &&& edit::applied(commented, (again->Some_0).0) == t
            &&& (again->Some_0).1 == seq![
                (EditorSelection {
                    range: selection.range,
                    reversed: selection.reversed && selection.range.start < selection.range.end,
                }),
            ]
        }),
{
    let t = encode_utf8(text);
    let o = encode_utf8(open);
    let c = encode_utf8(close);
    encode_utf8_valid_utf8(text);
    lemma_plain_bytes(open);
    lemma_plain_bytes(close);
    lemma_no_comment(text, selection, open, c);
    lemma_clear(text, selection.range.start as int, selection.range.end as int, open, close);
    lemma_wrapping(t, selection, o, c);
    law_toggling_block_comment_twice(t, selection, o, c);
}

} // verus!
