//! Toggling line comments and block comments.

use crate::bytes;
use crate::cursor;
use crate::cursor::EditorSelection;
use crate::edit;
use crate::edit::EditPlan;
use crate::order;
use crate::rope;
use crate::text;
use crate::text::Document;
use ropey::Rope;
use std::ops::Range;
use vstd::prelude::*;
use vstd::string::*;
use vstd::utf8::*;

verus! {

/// Bound on the lines that one comment action touches.
pub const MAX_LINE_COMMENT_LINES: usize = 100_000;

/// The rows from `first` to `last`, both included; none where `last < first`.
#[derive(Debug, Copy, Clone, PartialEq, Eq, Structural)]
pub struct RowSpan {
    pub first: usize,
    pub last: usize,
}

/// The rows that a selection covers. A selection that ends at the start of a
/// row below its first does not cover that row.
pub open spec fn selection_rows(t: Seq<u8>, selection: EditorSelection) -> Option<(int, int)> {
    let start = selection.range.start as int;
    let end = selection.range.end as int;
    if start > t.len() || end > t.len() {
        None
    } else {
        let first = text::row_at(t, start);
        let last = text::row_at(t, end);
        if start != end && last > first && end == text::line_start(t, last) {
            Some((first, last - 1))
        } else {
            Some((first, last))
        }
    }
}

/// The rows that a selection covers.
pub fn selection_line_range(document: &Document, selection: EditorSelection) -> (rows: Option<
    RowSpan,
>)
    requires
        document.wf(),
    ensures
        match rows {
            Some(span) => selection_rows(document.bytes(), selection) == Some(
                (span.first as int, span.last as int),
            ) && span.first < text::line_count(document.bytes()) && span.last < text::line_count(
                document.bytes(),
            ),
            None => selection_rows(document.bytes(), selection) is None,
        },
{
    if selection.range.start > document.len() || selection.range.end > document.len() {
        return None;
    }
    let first = document.offset_to_point(selection.range.start).row;
    let mut last = document.offset_to_point(selection.range.end).row;
    if !selection.is_empty() && last > first && selection.range.end == document.line_start_offset(
        last,
    ) {
        last = last - 1;
    }
    Some(RowSpan { first, last })
}

/// Number of leading spaces and tabs among the bytes of `s` from `from`.
pub open spec fn blank_end(s: Seq<u8>, from: int) -> int
    decreases s.len() - from,
{
    if from < 0 || from >= s.len() {
        s.len() as int
    } else if s[from] != 32 && s[from] != 9 {
        from
    } else {
        blank_end(s, from + 1)
    }
}

/// Length of the indentation of `s`: its leading spaces and tabs.
pub open spec fn indentation_len(s: Seq<u8>) -> int {
    blank_end(s, 0)
}

pub open spec fn is_blank(s: Seq<u8>) -> bool {
    indentation_len(s) == s.len()
}

pub proof fn lemma_blank_end(s: Seq<u8>, from: int)
    requires
        0 <= from <= s.len(),
    ensures
        from <= blank_end(s, from) <= s.len(),
        forall|i: int| from <= i < blank_end(s, from) ==> s[i] == 32 || s[i] == 9,
        blank_end(s, from) < s.len() ==> s[blank_end(s, from)] != 32 && s[blank_end(s, from)] != 9,
    decreases s.len() - from,
{
    if from < s.len() && (s[from] == 32 || s[from] == 9) {
        lemma_blank_end(s, from + 1);
    }
}

/// Whether the first text of the line is the comment token.
pub open spec fn is_commented(s: Seq<u8>, token: Seq<u8>) -> bool {
    !is_blank(s) && bytes::matches_at(s, indentation_len(s), token)
}

/// The visible column after one more byte of indentation.
pub open spec fn next_column(column: int, byte: u8, size: int) -> int {
    if byte == 9 {
        column + (size - column % size)
    } else {
        column + 1
    }
}

/// The visible column after the first `n` bytes of `s`, with tab stops every
/// `size` columns.
pub open spec fn visible_column(s: Seq<u8>, n: int, size: int) -> int
    decreases n,
{
    if n <= 0 {
        0
    } else {
        next_column(visible_column(s, n - 1, size), s[n - 1], size)
    }
}

/// The greatest offset at or after `n` and within `len` whose visible column
/// does not pass `target`.
pub open spec fn column_offset(s: Seq<u8>, n: int, len: int, target: int, size: int) -> int
    decreases len - n,
{
    if n >= len {
        len
    } else if visible_column(s, n, size) >= target || visible_column(s, n + 1, size) > target {
        n
    } else {
        column_offset(s, n + 1, len, target, size)
    }
}

/// Whether the selection covers `row`.
pub open spec fn covers(t: Seq<u8>, selection: EditorSelection, row: int) -> bool {
    match selection_rows(t, selection) {
        Some((first, last)) => first <= row <= last,
        None => false,
    }
}

/// Whether one of the first `n` selections covers `row`.
pub open spec fn covered_before(
    t: Seq<u8>,
    selections: Seq<EditorSelection>,
    n: int,
    row: int,
) -> bool {
    exists|j: int| 0 <= j < n && covers(t, #[trigger] selections[j], row)
}

/// The rows from `first` to `last` that none of the first `n` selections covers.
pub open spec fn uncovered_rows(
    t: Seq<u8>,
    selections: Seq<EditorSelection>,
    n: int,
    first: int,
    last: int,
) -> Seq<int>
    decreases last - first + 1,
{
    if last < first {
        Seq::empty()
    } else {
        let before = uncovered_rows(t, selections, n, first, last - 1);
        if covered_before(t, selections, n, last) {
            before
        } else {
            before.push(last)
        }
    }
}

/// The rows that selection `i` owns: those it covers and no earlier one does.
pub open spec fn owned_rows(t: Seq<u8>, selections: Seq<EditorSelection>, i: int) -> Seq<int> {
    match selection_rows(t, selections[i]) {
        Some((first, last)) => uncovered_rows(t, selections, i, first, last),
        None => Seq::empty(),
    }
}

/// Number of rows that the first `n` selections own.
pub open spec fn owned_count(t: Seq<u8>, selections: Seq<EditorSelection>, n: int) -> int
    decreases n,
{
    if n <= 0 {
        0
    } else {
        owned_count(t, selections, n - 1) + owned_rows(t, selections, n - 1).len()
    }
}

/// Whether the first `n` of the rows are all blank.
pub open spec fn all_blank(t: Seq<u8>, rows: Seq<int>, n: int) -> bool {
    forall|i: int| 0 <= i < n ==> is_blank(text::content_bytes(t, #[trigger] rows[i]))
}

/// Whether each of the first `n` rows is blank or carries the comment token.
pub open spec fn all_commented(t: Seq<u8>, rows: Seq<int>, token: Seq<u8>, n: int) -> bool {
    forall|i: int|
        0 <= i < n ==> is_blank(text::content_bytes(t, #[trigger] rows[i])) || is_commented(
            text::content_bytes(t, rows[i]),
            token,
        )
}

/// The edit that removes the token, and one space after it, from a row.
pub open spec fn uncomment_edit(t: Seq<u8>, row: int, token: Seq<u8>) -> (int, int, Seq<u8>) {
    let s = text::content_bytes(t, row);
    let start = text::line_start(t, row) + indentation_len(s);
    let after = indentation_len(s) + token.len();
    let space: int = if bytes::matches_at(s, indentation_len(s), token) && after < s.len()
        && s[after] == 32 {
        1
    } else {
        0
    };
    (start, start + token.len() + space, Seq::empty())
}

/// The removals for the first `n` rows.
pub open spec fn uncomment_edits(t: Seq<u8>, rows: Seq<int>, token: Seq<u8>, n: int) -> Seq<
    (int, int, Seq<u8>),
>
    decreases n,
{
    if n <= 0 {
        Seq::empty()
    } else if is_blank(text::content_bytes(t, rows[n - 1])) {
        uncomment_edits(t, rows, token, n - 1)
    } else {
        uncomment_edits(t, rows, token, n - 1).push(uncomment_edit(t, rows[n - 1], token))
    }
}

/// Whether a row takes part in an insertion: blank rows only where every row is blank.
pub open spec fn is_relevant(t: Seq<u8>, row: int, only_blank: bool) -> bool {
    only_blank || !is_blank(text::content_bytes(t, row))
}

/// The visible column at which the text of a row begins.
pub open spec fn indentation_column(t: Seq<u8>, row: int, size: int) -> int {
    let s = text::content_bytes(t, row);
    visible_column(s, indentation_len(s), size)
}

/// The least indentation column among the relevant of the first `n` rows.
pub open spec fn least_column(
    t: Seq<u8>,
    rows: Seq<int>,
    only_blank: bool,
    size: int,
    n: int,
) -> Option<int>
    decreases n,
{
    if n <= 0 {
        None
    } else {
        let before = least_column(t, rows, only_blank, size, n - 1);
        if !is_relevant(t, rows[n - 1], only_blank) {
            before
        } else {
            let column = indentation_column(t, rows[n - 1], size);
            match before {
                Some(least) if least <= column => before,
                _ => Some(column),
            }
        }
    }
}

/// Where the token goes in a row.
pub open spec fn comment_offset(t: Seq<u8>, row: int, target: int, size: int) -> int {
    let s = text::content_bytes(t, row);
    text::line_start(t, row) + column_offset(s, 0, indentation_len(s), target, size)
}

/// The insertions for the relevant of the first `n` rows.
pub open spec fn comment_edits(
    t: Seq<u8>,
    rows: Seq<int>,
    only_blank: bool,
    target: int,
    size: int,
    token: Seq<u8>,
    n: int,
) -> Seq<(int, int, Seq<u8>)>
    decreases n,
{
    if n <= 0 {
        Seq::empty()
    } else {
        let before = comment_edits(t, rows, only_blank, target, size, token, n - 1);
        if is_relevant(t, rows[n - 1], only_blank) {
            let offset = comment_offset(t, rows[n - 1], target, size);
            before.push((offset, offset, token.push(32)))
        } else {
            before
        }
    }
}

/// The edits for the rows that one selection owns. Where every row with text
/// is commented the comments go; else they are added at the least indentation.
pub open spec fn group_edits(t: Seq<u8>, rows: Seq<int>, token: Seq<u8>, size: int) -> Seq<
    (int, int, Seq<u8>),
> {
    let n = rows.len() as int;
    let only_blank = all_blank(t, rows, n);
    if !only_blank && all_commented(t, rows, token, n) {
        uncomment_edits(t, rows, token, n)
    } else {
        let target = least_column(t, rows, only_blank, size, n);
        comment_edits(
            t,
            rows,
            only_blank,
            if target is Some {
                target->0
            } else {
                0
            },
            size,
            token,
            n,
        )
    }
}

/// The edits of the first `n` selections, each for the rows that it owns.
pub open spec fn toggle_line_edits(
    t: Seq<u8>,
    selections: Seq<EditorSelection>,
    token: Seq<u8>,
    size: int,
    n: int,
) -> Seq<(int, int, Seq<u8>)>
    decreases n,
{
    if n <= 0 {
        Seq::empty()
    } else {
        toggle_line_edits(t, selections, token, size, n - 1) + group_edits(
            t,
            owned_rows(t, selections, n - 1),
            token,
            size,
        )
    }
}

/// What toggling line comments plans: nothing without a token, a selection,
/// or beyond the bound on lines.
pub open spec fn toggle_line_plan(
    t: Seq<u8>,
    selections: Seq<EditorSelection>,
    token: Seq<u8>,
    indent_size: int,
) -> Seq<(int, int, Seq<u8>)> {
    let n = selections.len() as int;
    if token.len() == 0 || n == 0 || owned_count(t, selections, n) > MAX_LINE_COMMENT_LINES {
        Seq::empty()
    } else {
        toggle_line_edits(
            t,
            selections,
            token,
            if indent_size < 1 {
                1
            } else {
                indent_size
            },
            n,
        )
    }
}

proof fn lemma_owned_count_monotonic(t: Seq<u8>, selections: Seq<EditorSelection>, a: int, b: int)
    requires
        a <= b,
    ensures
        owned_count(t, selections, a) <= owned_count(t, selections, b),
    decreases b - a,
{
    if a < b {
        lemma_owned_count_monotonic(t, selections, a, b - 1);
    }
}

proof fn lemma_uncovered_prefix(
    t: Seq<u8>,
    selections: Seq<EditorSelection>,
    n: int,
    first: int,
    a: int,
    b: int,
)
    requires
        a <= b,
    ensures
        uncovered_rows(t, selections, n, first, a).len() <= uncovered_rows(
            t,
            selections,
            n,
            first,
            b,
        ).len(),
    decreases b - a,
{
    if a < b {
        lemma_uncovered_prefix(t, selections, n, first, a, b - 1);
    }
}

proof fn lemma_visible_column(s: Seq<u8>, n: int, size: int)
    requires
        0 <= n,
        size >= 1,
    ensures
        n <= visible_column(s, n, size) <= n * size,
    decreases n,
{
    if n > 0 {
        lemma_visible_column(s, n - 1, size);
        let c = visible_column(s, n - 1, size);
        assert(0 <= c % size < size) by (nonlinear_arith)
            requires
                size >= 1,
        ;
        assert((n - 1) * size + size == n * size) by (nonlinear_arith);
    } else {
        assert(n * size == 0) by (nonlinear_arith)
            requires
                n == 0,
        ;
    }
}

/// Number of leading spaces and tabs.
pub(crate) fn find_indentation(s: &[u8]) -> (len: usize)
    ensures
        len == indentation_len(s@),
        len <= s@.len(),
{
    let mut i: usize = 0;
    while i < s.len() && (s[i] == 32 || s[i] == 9)
        invariant
            i <= s.len(),
            blank_end(s@, i as int) == blank_end(s@, 0),
        decreases s.len() - i,
    {
        i = i + 1;
    }
    i
}

/// The visible column after the first `n` bytes.
fn measure_column(s: &[u8], n: usize, size: usize) -> (column: usize)
    requires
        n <= s@.len(),
        size >= 1,
        s@.len() * size <= usize::MAX,
    ensures
        column == visible_column(s@, n as int, size as int),
{
    let mut column: usize = 0;
    let mut i: usize = 0;
    while i < n
        invariant
            i <= n <= s@.len(),
            size >= 1,
            s@.len() * size <= usize::MAX,
            column == visible_column(s@, i as int, size as int),
        decreases n - i,
    {
        proof {
            lemma_visible_column(s@, i + 1, size as int);
            lemma_visible_column(s@, i as int, size as int);
            assert((i + 1) * size <= s@.len() * size) by (nonlinear_arith)
                requires
                    i + 1 <= s@.len(),
            ;
        }
        if s[i] == 9 {
            column = column + (size - column % size);
        } else {
            column = column + 1;
        }
        i = i + 1;
    }
    column
}

/// The greatest offset within `len` whose visible column does not pass `target`.
fn find_column(s: &[u8], len: usize, target: usize, size: usize) -> (offset: usize)
    requires
        len <= s@.len(),
        size >= 1,
        s@.len() * size <= usize::MAX,
    ensures
        offset == column_offset(s@, 0, len as int, target as int, size as int),
        offset <= len,
{
    let mut column: usize = 0;
    let mut i: usize = 0;
    while i < len
        invariant
            i <= len <= s@.len(),
            size >= 1,
            s@.len() * size <= usize::MAX,
            column == visible_column(s@, i as int, size as int),
            column_offset(s@, 0, len as int, target as int, size as int) == column_offset(
                s@,
                i as int,
                len as int,
                target as int,
                size as int,
            ),
        decreases len - i,
    {
        if column >= target {
            return i;
        }
        proof {
            lemma_visible_column(s@, i + 1, size as int);
            assert((i + 1) * size <= s@.len() * size) by (nonlinear_arith)
                requires
                    i + 1 <= s@.len(),
            ;
        }
        let next: usize = if s[i] == 9 {
            column + (size - column % size)
        } else {
            column + 1
        };
        if next > target {
            return i;
        }
        column = next;
        i = i + 1;
    }
    len
}

/// Whether one of the first `n` selections covers `row`.
fn is_covered_before(document: &Document, selections: &[EditorSelection], n: usize, row: usize) -> (
covered: bool)
    requires
        document.wf(),
        n <= selections@.len(),
    ensures
        covered == covered_before(document.bytes(), selections@, n as int, row as int),
{
    let mut j: usize = 0;
    while j < n
        invariant
            document.wf(),
            j <= n <= selections@.len(),
            !covered_before(document.bytes(), selections@, j as int, row as int),
        decreases n - j,
    {
        if let Some(span) = selection_line_range(document, selections[j]) {
            if span.first <= row && row <= span.last {
                assert(covers(document.bytes(), selections@[j as int], row as int));
                return true;
            }
        }
        proof {
            assert(!covers(document.bytes(), selections@[j as int], row as int));
        }
        j = j + 1;
    }
    false
}

pub open spec fn rows_view(rows: Seq<usize>) -> Seq<int> {
    Seq::new(rows.len(), |i: int| rows[i] as int)
}

/// The rows that selection `i` owns, unless they are more than `limit`.
fn collect_owned_rows(
    document: &Document,
    selections: &[EditorSelection],
    i: usize,
    limit: usize,
) -> (rows: Option<Vec<usize>>)
    requires
        document.wf(),
        i < selections@.len(),
    ensures
        match rows {
            Some(rows) => rows_view(rows@) == owned_rows(document.bytes(), selections@, i as int)
                && rows@.len() <= limit && forall|k: int|
                0 <= k < rows@.len() ==> #[trigger] rows@[k] < text::line_count(document.bytes()),
            None => owned_rows(document.bytes(), selections@, i as int).len() > limit,
        },
{
    let mut rows: Vec<usize> = Vec::new();
    let ghost t = document.bytes();
    let span = match selection_line_range(document, selections[i]) {
        Some(span) => span,
        None => {
            assert(rows_view(rows@) =~= owned_rows(t, selections@, i as int));
            return Some(rows);
        },
    };
    if span.last < span.first {
        assert(rows_view(rows@) =~= owned_rows(t, selections@, i as int));
        return Some(rows);
    }
    let mut row: usize = span.first;
    assert(rows_view(rows@) =~= uncovered_rows(
        t,
        selections@,
        i as int,
        span.first as int,
        row - 1,
    ));
    loop
        invariant
            document.wf(),
            t == document.bytes(),
            i < selections@.len(),
            span.first <= row <= span.last < text::line_count(t),
            selection_rows(t, selections@[i as int]) == Some((span.first as int, span.last as int)),
            rows@.len() <= limit,
            rows_view(rows@) == uncovered_rows(
                t,
                selections@,
                i as int,
                span.first as int,
                row - 1,
            ),
            forall|k: int| 0 <= k < rows@.len() ==> #[trigger] rows@[k] < text::line_count(t),
        decreases span.last - row,
    {
        if !is_covered_before(document, selections, i, row) {
            if rows.len() == limit {
                proof {
                    lemma_uncovered_prefix(
                        t,
                        selections@,
                        i as int,
                        span.first as int,
                        row as int,
                        span.last as int,
                    );
                }
                return None;
            }
            let ghost before = rows@;
            rows.push(row);
            assert(rows_view(rows@) =~= rows_view(before).push(row as int));
        }
        if row == span.last {
            return Some(rows);
        }
        row = row + 1;
    }
}

/// The edits for the rows that one selection owns.
fn plan_group(document: &Document, rows: &Vec<usize>, token: &str, size: usize) -> (edits: Vec<
    (Range<usize>, String),
>)
    requires
        document.wf(),
        size >= 1,
        document.bytes().len() * size <= usize::MAX,
        forall|k: int|
            0 <= k < rows@.len() ==> #[trigger] rows@[k] < text::line_count(document.bytes()),
    ensures
        edit::edits_view(edits@) == group_edits(
            document.bytes(),
            rows_view(rows@),
            encode_utf8(token@),
            size as int,
        ),
{
    let ghost t = document.bytes();
    let ghost tk = encode_utf8(token@);
    let ghost rv = rows_view(rows@);
    let mut only_blank = true;
    let mut only_commented = true;
    let mut i: usize = 0;
    while i < rows.len()
        invariant
            document.wf(),
            t == document.bytes(),
            tk == encode_utf8(token@),
            rv == rows_view(rows@),
            i <= rows@.len(),
            only_blank == all_blank(t, rv, i as int),
            only_commented == all_commented(t, rv, tk, i as int),
        decreases rows.len() - i,
    {
        assert(rv[i as int] == rows@[i as int]);
        let content = document.line_content(rows[i]);
        let s = content.as_str().as_bytes();
        let indentation = find_indentation(s);
        if indentation < s.len() {
            only_blank = false;
            if !bytes::bytes_match_at(s, indentation, token.as_bytes()) {
                only_commented = false;
            }
        }
        i = i + 1;
    }
    let mut edits: Vec<(Range<usize>, String)> = Vec::new();
    if !only_blank && only_commented {
        assert(edit::edits_view(edits@) =~= uncomment_edits(t, rv, tk, 0));
        let mut k: usize = 0;
        while k < rows.len()
            invariant
                document.wf(),
                t == document.bytes(),
                tk == encode_utf8(token@),
                rv == rows_view(rows@),
                k <= rows@.len(),
                all_commented(t, rv, tk, rv.len() as int),
                edit::edits_view(edits@) == uncomment_edits(t, rv, tk, k as int),
                forall|k: int| 0 <= k < rows@.len() ==> #[trigger] rows@[k] < text::line_count(t),
            decreases rows.len() - k,
        {
            assert(rv[k as int] == rows@[k as int]);
            let row: usize = rows[k];
            let content = document.line_content(row);
            let s = content.as_str().as_bytes();
            let indentation = find_indentation(s);
            if indentation < s.len() {
                let start = document.line_start_offset(row);
                proof {
                    document.lemma_wf();
                    text::lemma_line_boundaries(t, row as int);
                    assert(is_commented(text::content_bytes(t, rv[k as int]), tk));
                }
                let after: usize = indentation + token.as_bytes().len();
                let space: usize = if after < s.len() && s[after] == 32 {
                    1
                } else {
                    0
                };
                let ghost before = edits@;
                let removed = (start + indentation..start + after + space, String::new());
                assert(edit::edit_view(removed) == uncomment_edit(t, row as int, tk));
                edits.push(removed);
                proof {
                    edit::lemma_edits_view_push(before, removed);
                }
            }
            k = k + 1;
        }
        return edits;
    }
    let mut least: Option<usize> = None;
    let mut k: usize = 0;
    while k < rows.len()
        invariant
            document.wf(),
            t == document.bytes(),
            rv == rows_view(rows@),
            size >= 1,
            document.bytes().len() * size <= usize::MAX,
            k <= rows@.len(),
            match least {
                Some(column) => least_column(t, rv, only_blank, size as int, k as int) == Some(
                    column as int,
                ),
                None => least_column(t, rv, only_blank, size as int, k as int) is None,
            },
        decreases rows.len() - k,
    {
        assert(rv[k as int] == rows@[k as int]);
        let content = document.line_content(rows[k]);
        let s = content.as_str().as_bytes();
        let indentation = find_indentation(s);
        if only_blank || indentation < s.len() {
            proof {
                document.lemma_wf();
                text::lemma_line_boundaries(t, rows@[k as int] as int);
                assert(s@.len() * size <= t.len() * size) by (nonlinear_arith)
                    requires
                        s@.len() <= t.len(),
                ;
            }
            let column = measure_column(s, indentation, size);
            least = match least {
                Some(current) => if current <= column {
                    Some(current)
                } else {
                    Some(column)
                },
                None => Some(column),
            };
        }
        k = k + 1;
    }
    let target: usize = match least {
        Some(column) => column,
        None => 0,
    };
    let mut comment = token.to_owned();
    text::push_text(&mut comment, " ");
    proof {
        reveal_strlit(" ");
        assert(" "@ =~= seq![' ']);
        lemma_ascii_bytes(" "@);
        assert(encode_utf8(" "@) =~= seq![32u8]);
        assert(encode_utf8(comment@) =~= tk.push(32));
    }
    assert(edit::edits_view(edits@) =~= comment_edits(
        t,
        rv,
        only_blank,
        target as int,
        size as int,
        tk,
        0,
    ));
    let mut j: usize = 0;
    while j < rows.len()
        invariant
            document.wf(),
            t == document.bytes(),
            rv == rows_view(rows@),
            size >= 1,
            document.bytes().len() * size <= usize::MAX,
            j <= rows@.len(),
            encode_utf8(comment@) == tk.push(32),
            edit::edits_view(edits@) == comment_edits(
                t,
                rv,
                only_blank,
                target as int,
                size as int,
                tk,
                j as int,
            ),
        decreases rows.len() - j,
    {
        assert(rv[j as int] == rows@[j as int]);
        let row: usize = rows[j];
        let content = document.line_content(row);
        let s = content.as_str().as_bytes();
        let indentation = find_indentation(s);
        if only_blank || indentation < s.len() {
            proof {
                document.lemma_wf();
                text::lemma_line_boundaries(t, row as int);
                assert(s@.len() * size <= t.len() * size) by (nonlinear_arith)
                    requires
                        s@.len() <= t.len(),
                ;
            }
            let offset: usize = document.line_start_offset(row) + find_column(
                s,
                indentation,
                target,
                size,
            );
            let ghost before = edits@;
            let inserted = (offset..offset, comment.clone());
            edits.push(inserted);
            proof {
                edit::lemma_edits_view_push(before, inserted);
            }
        }
        j = j + 1;
    }
    edits
}

/// The bytes of ASCII text are its characters.
pub proof fn lemma_ascii_bytes(s: Seq<char>)
    requires
        is_ascii_chars(s),
    ensures
        encode_utf8(s) == Seq::new(s.len(), |i: int| s[i] as u8),
{
    is_ascii_chars_encode_utf8(s);
}

/// Plans Toggle Line Comment edits in UTF-8 byte ranges.
///
/// Each selection decides independently whether to add or remove comments.
/// When selections share a line, the earlier editor selection owns it so the
/// token is never inserted or removed twice.
pub fn plan_toggle_line_comment_edits(
    text: &Rope,
    selections: &[EditorSelection],
    token: &str,
    indent_size: usize,
) -> (edits: Vec<(Range<usize>, String)>)
    requires
        rope::rope_bytes(*text).len() * (if indent_size < 1 {
            1
        } else {
            indent_size as int
        }) <= usize::MAX,
    ensures
        edit::edits_view(edits@) == toggle_line_plan(
            rope::rope_bytes(*text),
            selections@,
            encode_utf8(token@),
            indent_size as int,
        ),
{
    let document = Document::new(rope::rope_to_string(text));
    let ghost t = document.bytes();
    let ghost tk = encode_utf8(token@);
    let mut edits: Vec<(Range<usize>, String)> = Vec::new();
    assert(edit::edits_view(edits@) =~= Seq::empty());
    if token.as_bytes().len() == 0 || selections.len() == 0 {
        return edits;
    }
    let size: usize = if indent_size < 1 {
        1
    } else {
        indent_size
    };
    let mut count: usize = 0;
    let mut i: usize = 0;
    while i < selections.len()
        invariant
            document.wf(),
            t == document.bytes(),
            t == rope::rope_bytes(*text),
            tk == encode_utf8(token@),
            tk.len() > 0,
            size >= 1,
            size == (if indent_size < 1 {
                1
            } else {
                indent_size
            }),
            t.len() * size <= usize::MAX,
            i <= selections@.len(),
            count <= MAX_LINE_COMMENT_LINES,
            count == owned_count(t, selections@, i as int),
            edit::edits_view(edits@) == toggle_line_edits(
                t,
                selections@,
                tk,
                size as int,
                i as int,
            ),
        decreases selections.len() - i,
    {
        let rows = match collect_owned_rows(
            &document,
            selections,
            i,
            MAX_LINE_COMMENT_LINES - count,
        ) {
            Some(rows) => rows,
            None => {
                proof {
                    lemma_owned_count_monotonic(t, selections@, i + 1, selections@.len() as int);
                }
                let none: Vec<(Range<usize>, String)> = Vec::new();
                assert(edit::edits_view(none@) =~= Seq::empty());
                return none;
            },
        };
        assert(rows_view(rows@).len() == rows@.len());
        count = count + rows.len();
        let mut group = plan_group(&document, &rows, token, size);
        let ghost before = edits@;
        let ghost added = group@;
        edits.append(&mut group);
        assert(edit::edits_view(edits@) =~= edit::edits_view(before) + edit::edits_view(added));
        i = i + 1;
    }
    edits
}

/// The last of the occurrences of `needle` at or before `limit`, counting from
/// `from` and without overlaps.
pub open spec fn last_occurrence(s: Seq<u8>, from: int, needle: Seq<u8>, limit: int) -> Option<int>
    decreases s.len() - from,
{
    match bytes::next_match(s, from, needle) {
        Some(at) => if needle.len() > 0 && 0 <= from <= at <= limit && at + needle.len() <= s.len() {
            match last_occurrence(s, at + needle.len(), needle, limit) {
                Some(later) => Some(later),
                None => Some(at),
            }
        } else {
            None
        },
        None => None,
    }
}

/// The first of the occurrences of `needle` at or after `minimum`, counting
/// from `from` and without overlaps.
pub open spec fn first_occurrence(s: Seq<u8>, from: int, needle: Seq<u8>, minimum: int) -> Option<
    int,
>
    decreases s.len() - from,
{
    match bytes::next_match(s, from, needle) {
        Some(at) => if at >= minimum {
            Some(at)
        } else if needle.len() > 0 && 0 <= from <= at && at + needle.len() <= s.len() {
            first_occurrence(s, at + needle.len(), needle, minimum)
        } else {
            None
        },
        None => None,
    }
}

pub open spec fn contains(s: Seq<u8>, needle: Seq<u8>) -> bool {
    bytes::next_match(s, 0, needle) is Some
}

/// Where the opening delimiter around a selection lies in the row of its start.
pub open spec fn open_index(t: Seq<u8>, start: int, open: Seq<u8>) -> Option<int> {
    let row = text::row_at(t, start);
    let s = text::content_bytes(t, row);
    let local = edit::min_int(start - text::line_start(t, row), s.len() as int);
    last_occurrence(s, 0, open, local + open.len())
}

/// Where the closing delimiter around a selection lies in the row of its end.
pub open spec fn close_index(t: Seq<u8>, end: int, close: Seq<u8>) -> Option<int> {
    let row = text::row_at(t, end);
    let s = text::content_bytes(t, row);
    let local = edit::min_int(end - text::line_start(t, row), s.len() as int);
    first_occurrence(s, 0, close, if local >= close.len() {
        local - close.len()
    } else {
        0
    })
}

/// Whether the comment that opens at `o` ends before the delimiter at `c`.
pub open spec fn closed_inside(
    s: Seq<u8>,
    e: Seq<u8>,
    same_row: bool,
    o_end: int,
    c: int,
    close: Seq<u8>,
) -> bool {
    if same_row {
        o_end > c || contains(s.subrange(o_end, c), close)
    } else {
        contains(s.subrange(o_end, s.len() as int), close) || contains(e.subrange(0, c), close)
    }
}

/// The delimiters with the space inside each, or one range where those meet.
pub open spec fn delimiter_ranges(
    s: Seq<u8>,
    e: Seq<u8>,
    s_start: int,
    e_start: int,
    o: int,
    c: int,
    open_len: int,
    close_len: int,
) -> Seq<(int, int)> {
    let o_end = o + open_len;
    let open_stop = s_start + o_end + if o_end < s.len() && s[o_end] == 32 {
        1int
    } else {
        0int
    };
    let close_start = e_start + c - if c > 0 && e[c - 1] == 32 {
        1int
    } else {
        0int
    };
    let close_stop = e_start + c + close_len;
    if open_stop > close_start {
        seq![(s_start + o, close_stop)]
    } else {
        seq![(s_start + o, open_stop), (close_start, close_stop)]
    }
}

/// The ranges to remove so that the block comment around `start..end` goes,
/// or nothing where the selection does not lie in one.
#[verifier::opaque]
pub open spec fn comment_ranges(
    t: Seq<u8>,
    start: int,
    end: int,
    open: Seq<u8>,
    close: Seq<u8>,
) -> Option<Seq<(int, int)>> {
    let start_row = text::row_at(t, start);
    let end_row = text::row_at(t, end);
    let s = text::content_bytes(t, start_row);
    let e = text::content_bytes(t, end_row);
    match (open_index(t, start, open), close_index(t, end, close)) {
        (Some(o), Some(c)) => if closed_inside(
            s,
            e,
            start_row == end_row,
            o + open.len(),
            c,
            close,
        ) {
            None
        } else {
            Some(
                delimiter_ranges(
                    s,
                    e,
                    text::line_start(t, start_row),
                    text::line_start(t, end_row),
                    o,
                    c,
                    open.len() as int,
                    close.len() as int,
                ),
            )
        },
        _ => None,
    }
}

pub(crate) proof fn lemma_last_occurrence(s: Seq<u8>, from: int, needle: Seq<u8>, limit: int)
    requires
        0 <= from,
        needle.len() > 0,
    ensures
        last_occurrence(s, from, needle, limit) matches Some(at) ==> from <= at && at + needle.len()
            <= s.len() && bytes::matches_at(s, at, needle),
    decreases s.len() - from,
{
    bytes::lemma_next_match(s, from, needle);
    match bytes::next_match(s, from, needle) {
        Some(at) => {
            if at <= limit {
                lemma_last_occurrence(s, at + needle.len(), needle, limit);
            }
        },
        None => {},
    }
}

proof fn lemma_first_occurrence(s: Seq<u8>, from: int, needle: Seq<u8>, minimum: int)
    requires
        0 <= from,
        needle.len() > 0,
    ensures
        first_occurrence(s, from, needle, minimum) matches Some(at) ==> from <= at && minimum <= at
            && at + needle.len() <= s.len() && bytes::matches_at(s, at, needle),
    decreases s.len() - from,
{
    bytes::lemma_next_match(s, from, needle);
    match bytes::next_match(s, from, needle) {
        Some(at) => {
            if at < minimum {
                lemma_first_occurrence(s, at + needle.len(), needle, minimum);
            }
        },
        None => {},
    }
}

fn find_last_occurrence(s: &[u8], needle: &[u8], limit: usize) -> (found: Option<usize>)
    requires
        needle@.len() > 0,
    ensures
        match found {
            Some(at) => last_occurrence(s@, 0, needle@, limit as int) == Some(at as int) && at
                + needle@.len() <= s@.len(),
            None => last_occurrence(s@, 0, needle@, limit as int) is None,
        },
{
    let mut found: Option<usize> = None;
    let mut from: usize = 0;
    loop
        invariant
            needle@.len() > 0,
            from <= s@.len(),
            found matches Some(at) ==> at + needle@.len() <= s@.len(),
            last_occurrence(s@, 0, needle@, limit as int) == (match last_occurrence(
                s@,
                from as int,
                needle@,
                limit as int,
            ) {
                Some(later) => Some(later),
                None => match found {
                    Some(at) => Some(at as int),
                    None => None,
                },
            }),
        decreases s@.len() - from,
    {
        proof {
            bytes::lemma_next_match(s@, from as int, needle@);
        }
        match bytes::find_bytes(s, from, needle) {
            Some(at) => {
                if at > limit {
                    return found;
                }
                found = Some(at);
                assert(s.len() == s@.len());
                from = at + needle.len();
            },
            None => {
                return found;
            },
        }
    }
}

fn find_first_occurrence(s: &[u8], needle: &[u8], minimum: usize) -> (found: Option<usize>)
    requires
        needle@.len() > 0,
    ensures
        match found {
            Some(at) => first_occurrence(s@, 0, needle@, minimum as int) == Some(at as int) && at
                + needle@.len() <= s@.len(),
            None => first_occurrence(s@, 0, needle@, minimum as int) is None,
        },
{
    let mut from: usize = 0;
    loop
        invariant
            needle@.len() > 0,
            from <= s@.len(),
            first_occurrence(s@, 0, needle@, minimum as int) == first_occurrence(
                s@,
                from as int,
                needle@,
                minimum as int,
            ),
        decreases s@.len() - from,
    {
        proof {
            bytes::lemma_next_match(s@, from as int, needle@);
        }
        match bytes::find_bytes(s, from, needle) {
            Some(at) => {
                if at >= minimum {
                    return Some(at);
                }
                assert(s.len() == s@.len());
                from = at + needle.len();
            },
            None => {
                return None;
            },
        }
    }
}

/// Where the opening delimiter around a selection lies in the row of its start.
fn find_open(document: &Document, start: usize, row: usize, open: &[u8]) -> (found: Option<usize>)
    requires
        document.wf(),
        start <= document.bytes().len(),
        text::is_boundary(document.bytes(), start as int),
        row == text::row_at(document.bytes(), start as int),
        open@.len() > 0,
    ensures
        match found {
            Some(o) => open_index(document.bytes(), start as int, open@) == Some(o as int) && o
                + open@.len() <= text::content_bytes(document.bytes(), row as int).len(),
            None => open_index(document.bytes(), start as int, open@) is None,
        },
{
    let ghost t = document.bytes();
    proof {
        text::lemma_floor_boundary(t, start as int);
        text::lemma_row_at(t, start as int);
    }
    let content = document.line_content(row);
    let s = content.as_str().as_bytes();
    let line_start = document.line_start_offset(row);
    let local: usize = if start - line_start <= s.len() {
        start - line_start
    } else {
        s.len()
    };
    let limit: usize = local.saturating_add(open.len());
    proof {
        lemma_limit(s@, open@, local + open@.len(), limit as int);
    }
    find_last_occurrence(s, open, limit)
}

/// Where the closing delimiter around a selection lies in the row of its end.
fn find_close(document: &Document, end: usize, row: usize, close: &[u8]) -> (found: Option<usize>)
    requires
        document.wf(),
        end <= document.bytes().len(),
        text::is_boundary(document.bytes(), end as int),
        row == text::row_at(document.bytes(), end as int),
        close@.len() > 0,
    ensures
        match found {
            Some(c) => close_index(document.bytes(), end as int, close@) == Some(c as int) && c
                + close@.len() <= text::content_bytes(document.bytes(), row as int).len(),
            None => close_index(document.bytes(), end as int, close@) is None,
        },
{
    let ghost t = document.bytes();
    proof {
        text::lemma_floor_boundary(t, end as int);
        text::lemma_row_at(t, end as int);
    }
    let content = document.line_content(row);
    let s = content.as_str().as_bytes();
    let line_start = document.line_start_offset(row);
    let local: usize = if end - line_start <= s.len() {
        end - line_start
    } else {
        s.len()
    };
    find_first_occurrence(s, close, local.saturating_sub(close.len()))
}

fn is_closed_inside(
    s: &[u8],
    e: &[u8],
    same_row: bool,
    o_end: usize,
    c: usize,
    close: &[u8],
) -> (closed: bool)
    requires
        o_end <= s@.len(),
        c <= e@.len(),
        same_row ==> s@ == e@,
    ensures
        closed == closed_inside(s@, e@, same_row, o_end as int, c as int, close@),
{
    if same_row {
        o_end > c || bytes::find_bytes(vstd::slice::slice_subrange(s, o_end, c), 0, close).is_some()
    } else {
        bytes::find_bytes(vstd::slice::slice_subrange(s, o_end, s.len()), 0, close).is_some()
            || bytes::find_bytes(vstd::slice::slice_subrange(e, 0, c), 0, close).is_some()
    }
}

/// The ranges to remove so that the block comment around `start..end` goes.
fn enclosing_block_comment_ranges(
    document: &Document,
    start: usize,
    end: usize,
    open: &[u8],
    close: &[u8],
) -> (ranges: Option<Vec<Range<usize>>>)
    requires
        document.wf(),
        start <= end <= document.bytes().len(),
        text::is_boundary(document.bytes(), start as int),
        text::is_boundary(document.bytes(), end as int),
        open@.len() > 0,
        close@.len() > 0,
    ensures
        match ranges {
            Some(ranges) => comment_ranges(
                document.bytes(),
                start as int,
                end as int,
                open@,
                close@,
            ) == Some(text::ranges_view(ranges@)) && 1 <= ranges@.len() <= 2 && forall|i: int|
                0 <= i < ranges@.len() ==> (#[trigger] ranges@[i]).start <= ranges@[i].end
                    <= document.bytes().len(),
            None => comment_ranges(
                document.bytes(),
                start as int,
                end as int,
                open@,
                close@,
            ) is None,
        },
{
    let ghost t = document.bytes();
    proof {
        reveal(comment_ranges);
    }
    let start_row = document.offset_to_point(start).row;
    let end_row = document.offset_to_point(end).row;
    let o: usize = match find_open(document, start, start_row, open) {
        Some(o) => o,
        None => {
            return None;
        },
    };
    let c: usize = match find_close(document, end, end_row, close) {
        Some(c) => c,
        None => {
            return None;
        },
    };
    proof {
        document.lemma_wf();
        text::lemma_line_boundaries(t, start_row as int);
        text::lemma_line_boundaries(t, end_row as int);
        text::lemma_row_at_monotonic(t, start as int, end as int);
        if start_row < end_row {
            text::lemma_line_end(t, start_row as int);
            text::lemma_line_start_monotonic(t, start_row + 1, end_row as int);
        }
    }
    let start_content = document.line_content(start_row);
    let end_content = document.line_content(end_row);
    let s = start_content.as_str().as_bytes();
    let e = end_content.as_str().as_bytes();
    let o_end: usize = o + open.len();
    if is_closed_inside(s, e, start_row == end_row, o_end, c, close) {
        return None;
    }
    let s_start = document.line_start_offset(start_row);
    let e_start = document.line_start_offset(end_row);
    let open_space: usize = if o_end < s.len() && s[o_end] == 32 {
        1
    } else {
        0
    };
    let close_space: usize = if c > 0 && e[c - 1] == 32 {
        1
    } else {
        0
    };
    let open_stop: usize = s_start + o_end + open_space;
    let close_start: usize = e_start + c - close_space;
    let close_stop: usize = e_start + c + close.len();
    let mut ranges: Vec<Range<usize>> = Vec::new();
    if open_stop > close_start {
        ranges.push(s_start + o..close_stop);
    } else {
        ranges.push(s_start + o..open_stop);
        ranges.push(close_start..close_stop);
    }
    assert(text::ranges_view(ranges@) =~= delimiter_ranges(
        s@,
        e@,
        s_start as int,
        e_start as int,
        o as int,
        c as int,
        open@.len() as int,
        close@.len() as int,
    ));
    Some(ranges)
}

/// A limit beyond the text is as good as any other.
proof fn lemma_limit(s: Seq<u8>, needle: Seq<u8>, a: int, b: int)
    requires
        needle.len() > 0,
        a == b || (a >= s.len() && b >= s.len()),
    ensures
        last_occurrence(s, 0, needle, a) == last_occurrence(s, 0, needle, b),
{
    if a != b {
        lemma_limit_from(s, 0, needle, a, b);
    }
}

proof fn lemma_limit_from(s: Seq<u8>, from: int, needle: Seq<u8>, a: int, b: int)
    requires
        needle.len() > 0,
        0 <= from,
        a >= s.len() && b >= s.len(),
    ensures
        last_occurrence(s, from, needle, a) == last_occurrence(s, from, needle, b),
    decreases s.len() - from,
{
    bytes::lemma_next_match(s, from, needle);
    match bytes::next_match(s, from, needle) {
        Some(at) => {
            lemma_limit_from(s, at + needle.len(), needle, a, b);
        },
        None => {},
    }
}

/// Whether the selection is a range of the text between two boundaries.
pub open spec fn is_valid_selection(t: Seq<u8>, selection: EditorSelection) -> bool {
    &&& selection.range.start <= selection.range.end <= t.len()
    &&& text::is_boundary(t, selection.range.start as int)
    &&& text::is_boundary(t, selection.range.end as int)
}

pub open spec fn all_valid(t: Seq<u8>, selections: Seq<EditorSelection>, n: int) -> bool {
    forall|i: int| 0 <= i < n ==> is_valid_selection(t, #[trigger] selections[i])
}

pub fn check_selection(document: &Document, selection: EditorSelection) -> (valid: bool)
    requires
        document.wf(),
    ensures
        valid == is_valid_selection(document.bytes(), selection),
{
    selection.range.start <= selection.range.end && selection.range.end <= document.len()
        && document.is_char_boundary(selection.range.start) && document.is_char_boundary(
        selection.range.end,
    )
}

/// The block comment around a selection.
pub open spec fn comment_around(
    t: Seq<u8>,
    selection: EditorSelection,
    open: Seq<u8>,
    close: Seq<u8>,
) -> Option<Seq<(int, int)>> {
    comment_ranges(
        t,
        selection.range.start as int,
        selection.range.end as int,
        open,
        close,
    )
}

/// The edits for one selection: the delimiters around it go where it lies in
/// a block comment; else they are put around it, with a space inside each.
pub open spec fn block_edits_for(
    t: Seq<u8>,
    selection: EditorSelection,
    open: Seq<u8>,
    close: Seq<u8>,
) -> Seq<(int, int, Seq<u8>)> {
    let start = selection.range.start as int;
    let end = selection.range.end as int;
    match comment_around(t, selection, open, close) {
        Some(ranges) => Seq::new(
            ranges.len(),
            |i: int| (ranges[i].0, ranges[i].1, Seq::<u8>::empty()),
        ),
        None => if start == end {
            seq![(start, start, open + seq![32u8, 32u8] + close)]
        } else {
            seq![(start, start, open + seq![32u8]), (end, end, seq![32u8] + close)]
        },
    }
}

/// The edits of the first `n` selections.
pub open spec fn block_edits(
    t: Seq<u8>,
    selections: Seq<EditorSelection>,
    open: Seq<u8>,
    close: Seq<u8>,
    n: int,
) -> Seq<(int, int, Seq<u8>)>
    decreases n,
{
    if n <= 0 {
        Seq::empty()
    } else {
        block_edits(t, selections, open, close, n - 1) + block_edits_for(
            t,
            selections[n - 1],
            open,
            close,
        )
    }
}

/// Where an offset of the old text lies after the edits: past the replacement
/// where it lay in a replaced range.
pub open spec fn moved_past(edits: Seq<(int, int, Seq<u8>)>, offset: int, p: int) -> int
    decreases edits.len() - p,
{
    if p < 0 || p >= edits.len() {
        offset + edit::growth(edits, edits.len() as int)
    } else {
        let (start, end, text) = edits[p];
        if offset < start {
            offset + edit::growth(edits, p)
        } else if start < end && offset < end {
            start + edit::growth(edits, p) + text.len()
        } else {
            moved_past(edits, offset, p + 1)
        }
    }
}

/// Where the replacement of the `id`-th planned edit starts in the new text.
pub open spec fn span_start(
    sorted: Seq<(int, int, Seq<u8>)>,
    order: Seq<int>,
    id: int,
) -> int {
    let p = order.index_of(id);
    sorted[p].0 + edit::growth(sorted, p)
}

/// Where the replacement of the `id`-th planned edit ends in the new text.
pub open spec fn span_end(sorted: Seq<(int, int, Seq<u8>)>, order: Seq<int>, id: int) -> int {
    span_start(sorted, order, id) + sorted[order.index_of(id)].2.len()
}

/// The selection after the edits, where the first edit of the selection is the
/// `id`-th: the same text where the comment went, the caret between the new
/// delimiters, or the text between them.
pub open spec fn block_selection_after(
    t: Seq<u8>,
    selection: EditorSelection,
    open: Seq<u8>,
    close: Seq<u8>,
    id: int,
    sorted: Seq<(int, int, Seq<u8>)>,
    order: Seq<int>,
) -> EditorSelection {
    let start = selection.range.start as int;
    let end = selection.range.end as int;
    if comment_around(t, selection, open, close) is Some {
        cursor::spec_between(
            moved_past(sorted, start, 0) as usize,
            moved_past(sorted, end, 0) as usize,
            selection.reversed,
        )
    } else if start == end {
        cursor::spec_caret((span_start(sorted, order, id) + open.len() + 1) as usize)
    } else {
        cursor::spec_between(
            span_end(sorted, order, id) as usize,
            span_start(sorted, order, id + 1) as usize,
            selection.reversed,
        )
    }
}

/// What toggling block comments plans, edits and selections: nothing without
/// delimiters or selections, where a selection is no range of the text, or
/// where the edits of two selections overlap.
pub open spec fn toggle_block_plan(
    t: Seq<u8>,
    selections: Seq<EditorSelection>,
    open: Seq<u8>,
    close: Seq<u8>,
) -> Option<(Seq<(int, int, Seq<u8>)>, Seq<EditorSelection>)> {
    let n = selections.len() as int;
    let planned = block_edits(t, selections, open, close, n);
    let sorted = edit::sorted_edits(planned);
    let order = order::sorted_order(edit::edit_keys(planned), planned.len() as int);
    if open.len() == 0 || close.len() == 0 || n == 0 || !all_valid(t, selections, n)
        || edit::has_overlap(sorted) {
        None
    } else {
        Some(
            (
                sorted,
                Seq::new(
                    selections.len(),
                    |i: int|
                        block_selection_after(
                            t,
                            selections[i],
                            open,
                            close,
                            block_edits(t, selections, open, close, i).len() as int,
                            sorted,
                            order,
                        ),
                ),
            ),
        )
    }
}

/// What becomes of one selection when block comments are toggled.
#[derive(Debug, Copy, Clone, PartialEq, Eq, Structural)]
enum BlockChange {
    /// The comment around it goes.
    Removed,
    /// Edit `id` puts delimiters around the caret.
    Caret(usize),
    /// Edits `id` and `id + 1` put delimiters around the selected text.
    Wrapped(usize),
}

spec fn change_view(
    t: Seq<u8>,
    selection: EditorSelection,
    open: Seq<u8>,
    close: Seq<u8>,
    id: int,
) -> BlockChange {
    if comment_around(t, selection, open, close) is Some {
        BlockChange::Removed
    } else if selection.range.start == selection.range.end {
        BlockChange::Caret(id as usize)
    } else {
        BlockChange::Wrapped(id as usize)
    }
}

/// Every planned edit is a range of the text and inserts a bounded number of bytes.
spec fn edits_bounded(edits: Seq<(int, int, Seq<u8>)>, len: int, bound: int) -> bool {
    forall|i: int|
        #![trigger edits[i]]
        0 <= i < edits.len() ==> 0 <= edits[i].0 <= edits[i].1 <= len && edits[i].2.len() <= bound
}

pub(crate) fn push_edit(edits: &mut Vec<(Range<usize>, String)>, start: usize, end: usize, text: String)
    ensures
        edit::edits_view(final(edits)@) == edit::edits_view(old(edits)@).push(
            (start as int, end as int, encode_utf8(text@)),
        ),
        final(edits)@.len() == old(edits)@.len() + 1,
{
    let new = (start..end, text);
    proof {
        edit::lemma_edits_view_push(edits@, new);
    }
    edits.push(new);
}

/// Plans the edits for one selection.
fn plan_block_selection(
    document: &Document,
    selection: EditorSelection,
    open: &str,
    close: &str,
    edits: &mut Vec<(Range<usize>, String)>,
) -> (change: BlockChange)
    requires
        document.wf(),
        is_valid_selection(document.bytes(), selection),
        encode_utf8(open@).len() > 0,
        encode_utf8(close@).len() > 0,
        edits_bounded(
            edit::edits_view(old(edits)@),
            document.bytes().len() as int,
            (encode_utf8(open@).len() + encode_utf8(close@).len() + 2) as int,
        ),
    ensures
        edit::edits_view(final(edits)@) == edit::edits_view(old(edits)@) + block_edits_for(
            document.bytes(),
            selection,
            encode_utf8(open@),
            encode_utf8(close@),
        ),
        old(edits)@.len() < final(edits)@.len() <= old(edits)@.len() + 2,
        change == change_view(
            document.bytes(),
            selection,
            encode_utf8(open@),
            encode_utf8(close@),
            old(edits)@.len() as int,
        ),
        change is Wrapped ==> final(edits)@.len() == old(edits)@.len() + 2,
        edits_bounded(
            edit::edits_view(final(edits)@),
            document.bytes().len() as int,
            (encode_utf8(open@).len() + encode_utf8(close@).len() + 2) as int,
        ),
{
    let ghost before = edit::edits_view(edits@);
    let id: usize = edits.len();
    proof {
        reveal_strlit(" ");
        reveal_strlit("  ");
        lemma_ascii_bytes(" "@);
        lemma_ascii_bytes("  "@);
        assert(encode_utf8(" "@) =~= seq![32u8]);
        assert(encode_utf8("  "@) =~= seq![32u8, 32u8]);
        assert(encode_utf8(""@.take(0)) =~= seq![]);
    }
    match enclosing_block_comment_ranges(
        document,
        selection.range.start,
        selection.range.end,
        open.as_bytes(),
        close.as_bytes(),
    ) {
        Some(ranges) => {
            push_edit(edits, ranges[0].start, ranges[0].end, String::new());
            if ranges.len() > 1 {
                push_edit(edits, ranges[1].start, ranges[1].end, String::new());
            }
            proof {
                assert(encode_utf8(Seq::<char>::empty()) =~= Seq::<u8>::empty());
                let rv = text::ranges_view(ranges@);
                assert(rv[0] == (ranges@[0].start as int, ranges@[0].end as int));
                if ranges.len() > 1 {
                    assert(rv[1] == (ranges@[1].start as int, ranges@[1].end as int));
                }
                assert(edit::edits_view(edits@) =~= before + block_edits_for(
                    document.bytes(),
                    selection,
                    encode_utf8(open@),
                    encode_utf8(close@),
                ));
            }
            BlockChange::Removed
        },
        None => if selection.is_empty() {
            let mut replacement = open.to_owned();
            text::push_text(&mut replacement, "  ");
            text::push_text(&mut replacement, close);
            push_edit(edits, selection.range.start, selection.range.start, replacement);
            assert(edit::edits_view(edits@) =~= before + block_edits_for(
                document.bytes(),
                selection,
                encode_utf8(open@),
                encode_utf8(close@),
            ));
            BlockChange::Caret(id)
        } else {
            let mut opening = open.to_owned();
            text::push_text(&mut opening, " ");
            let mut closing = String::new();
            text::push_text(&mut closing, " ");
            text::push_text(&mut closing, close);
            proof {
                assert(encode_utf8(Seq::<char>::empty()) =~= Seq::<u8>::empty());
                assert(encode_utf8(closing@) =~= seq![32u8] + encode_utf8(close@));
            }
            push_edit(edits, selection.range.start, selection.range.start, opening);
            push_edit(edits, selection.range.end, selection.range.end, closing);
            assert(edit::edits_view(edits@) =~= before + block_edits_for(
                document.bytes(),
                selection,
                encode_utf8(open@),
                encode_utf8(close@),
            ));
            BlockChange::Wrapped(id)
        },
    }
}

/// Where each planned edit's replacement lies in the new text, by its id.
pub(crate) fn resolve_edit_spans(sorted: &Vec<(Range<usize>, String)>, order: &Vec<usize>) -> (spans: Vec<
    (usize, usize),
>)
    requires
        sorted@.len() == order@.len(),
        exists|len: int|
            edit::edits_ordered(edit::edits_view(sorted@), len) && len + edit::added(
                edit::edits_view(sorted@),
                sorted@.len() as int,
            ) <= usize::MAX,
        forall|i: int| 0 <= i < order@.len() ==> #[trigger] order@[i] < sorted@.len(),
        forall|i: int, j: int|
            #![trigger order@[i], order@[j]]
            0 <= i < j < order@.len() ==> order@[i] != order@[j],
    ensures
        spans_resolved(edit::edits_view(sorted@), order::indices_view(order@), spans@),
{
    let ghost sv = edit::edits_view(sorted@);
    let ghost len = choose|len: int|
        edit::edits_ordered(sv, len) && len + edit::added(sv, sorted@.len() as int) <= usize::MAX;
    let mut spans: Vec<(usize, usize)> = Vec::new();
    let mut k: usize = 0;
    while k < sorted.len()
        invariant
            k <= sorted@.len(),
            spans@.len() == k,
        decreases sorted.len() - k,
    {
        spans.push((0, 0));
        k = k + 1;
    }
    let mut more: usize = 0;
    let mut less: usize = 0;
    let mut p: usize = 0;
    while p < sorted.len()
        invariant
            sv == edit::edits_view(sorted@),
            edit::edits_ordered(sv, len),
            len + edit::added(sv, sorted@.len() as int) <= usize::MAX,
            sorted@.len() == order@.len(),
            spans@.len() == sorted@.len(),
            forall|i: int| 0 <= i < order@.len() ==> #[trigger] order@[i] < sorted@.len(),
            forall|i: int, j: int|
                #![trigger order@[i], order@[j]]
                0 <= i < j < order@.len() ==> order@[i] != order@[j],
            p <= sorted@.len(),
            more == edit::added(sv, p as int),
            less == edit::removed(sv, p as int),
            forall|q: int|
                #![trigger order@[q]]
                0 <= q < p ==> spans@[order@[q] as int].0 == sv[q].0 + edit::growth(sv, q)
                    && spans@[order@[q] as int].1 == spans@[order@[q] as int].0 + sv[q].2.len(),
        decreases sorted.len() - p,
    {
        proof {
            edit::lemma_removed(sv, len, p as int);
            edit::lemma_added_monotonic(sv, p + 1, sorted@.len() as int);
            assert(sv[p as int] == edit::edit_view(sorted@[p as int]));
        }
        let size: usize = sorted[p].1.as_str().as_bytes().len();
        let start: usize = sorted[p].0.start - less + more;
        let id: usize = order[p];
        spans[id] = (start, start + size);
        more = more + size;
        less = less + (sorted[p].0.end - sorted[p].0.start);
        p = p + 1;
    }
    spans
}

/// Where an offset of the old text lies after the edits.
fn move_past(sorted: &Vec<(Range<usize>, String)>, offset: usize, Ghost(len): Ghost<int>) -> (moved:
    usize)
    requires
        edit::edits_ordered(edit::edits_view(sorted@), len),
        offset <= len,
        len + edit::added(edit::edits_view(sorted@), sorted@.len() as int) <= usize::MAX,
    ensures
        moved == moved_past(edit::edits_view(sorted@), offset as int, 0),
{
    let ghost sv = edit::edits_view(sorted@);
    let mut more: usize = 0;
    let mut less: usize = 0;
    let mut p: usize = 0;
    while p < sorted.len()
        invariant
            sv == edit::edits_view(sorted@),
            edit::edits_ordered(sv, len),
            offset <= len,
            len + edit::added(sv, sorted@.len() as int) <= usize::MAX,
            p <= sorted@.len(),
            p > 0 ==> sv[p - 1].1 <= offset,
            more == edit::added(sv, p as int),
            less == edit::removed(sv, p as int),
            moved_past(sv, offset as int, 0) == moved_past(sv, offset as int, p as int),
        decreases sorted.len() - p,
    {
        proof {
            edit::lemma_removed(sv, len, p as int);
            edit::lemma_added_monotonic(sv, p as int, sorted@.len() as int);
            edit::lemma_added_monotonic(sv, p + 1, sorted@.len() as int);
            assert(sv[p as int] == edit::edit_view(sorted@[p as int]));
        }
        let start: usize = sorted[p].0.start;
        let end: usize = sorted[p].0.end;
        let size: usize = sorted[p].1.as_str().as_bytes().len();
        if offset < start {
            return offset - less + more;
        }
        if start < end && offset < end {
            return start - less + more + size;
        }
        more = more + size;
        less = less + (end - start);
        p = p + 1;
    }
    proof {
        edit::lemma_removed(sv, len, p as int);
    }
    offset - less + more
}

/// The number of planned edits, and where those of selection `i` begin.
proof fn lemma_block_edits_len(
    t: Seq<u8>,
    selections: Seq<EditorSelection>,
    open: Seq<u8>,
    close: Seq<u8>,
    a: int,
    b: int,
)
    requires
        0 <= a <= b,
    ensures
        block_edits(t, selections, open, close, a).len() <= block_edits(
            t,
            selections,
            open,
            close,
            b,
        ).len(),
    decreases b - a,
{
    if a < b {
        lemma_block_edits_len(t, selections, open, close, a, b - 1);
    }
}

/// Plans Toggle Block Comment edits and the selections after them.
pub fn plan_toggle_block_comment_edits(
    text: &Rope,
    selections: &[EditorSelection],
    open: &str,
    close: &str,
) -> (plan: Option<EditPlan>)
    requires
        rope::rope_bytes(*text).len() + (2 * selections@.len()) * (encode_utf8(open@).len()
            + encode_utf8(close@).len() + 2) <= usize::MAX,
    ensures
        match plan {
            Some(plan) => toggle_block_plan(
                rope::rope_bytes(*text),
                selections@,
                encode_utf8(open@),
                encode_utf8(close@),
            ) == Some((plan.view_edits(), plan.selections_after@)),
            None => toggle_block_plan(
                rope::rope_bytes(*text),
                selections@,
                encode_utf8(open@),
                encode_utf8(close@),
            ) is None,
        },
{
    let ghost o = encode_utf8(open@);
    let ghost c = encode_utf8(close@);
    let ghost m: int = (o.len() + c.len() + 2) as int;
    if open.as_bytes().len() == 0 || close.as_bytes().len() == 0 || selections.len() == 0 {
        return None;
    }
    let document = Document::new(rope::rope_to_string(text));
    let ghost t = document.bytes();
    let mut planned: Vec<(Range<usize>, String)> = Vec::new();
    let mut changes: Vec<BlockChange> = Vec::new();
    assert(edit::edits_view(planned@) =~= block_edits(t, selections@, o, c, 0));
    let mut i: usize = 0;
    while i < selections.len()
        invariant
            document.wf(),
            t == document.bytes(),
            t == rope::rope_bytes(*text),
            o == encode_utf8(open@),
            c == encode_utf8(close@),
            m == o.len() + c.len() + 2,
            o.len() > 0,
            c.len() > 0,
            i <= selections@.len(),
            changes@.len() == i,
            planned@.len() <= 2 * i,
            all_valid(t, selections@, i as int),
            edits_bounded(edit::edits_view(planned@), t.len() as int, m),
            edit::edits_view(planned@) == block_edits(t, selections@, o, c, i as int),
            forall|k: int|
                0 <= k < i ==> #[trigger] changes@[k] == change_view(
                    t,
                    selections@[k],
                    o,
                    c,
                    block_edits(t, selections@, o, c, k).len() as int,
                ),
            forall|k: int|
                #![trigger changes@[k]]
                0 <= k < i ==> block_edits(t, selections@, o, c, k).len() + (if changes@[k] is Wrapped {
                    2int
                } else {
                    1int
                }) <= planned@.len(),
        decreases selections.len() - i,
    {
        if !check_selection(&document, selections[i]) {
            return None;
        }
        let ghost before = edit::edits_view(planned@);
        assert(before.len() == planned@.len());
        let change = plan_block_selection(&document, selections[i], open, close, &mut planned);
        changes.push(change);
        i = i + 1;
    }
    let (sorted, order) = edit::sort_edits(&planned);
    let ghost pv = edit::edits_view(planned@);
    let ghost sv = edit::edits_view(sorted@);
    let ghost ov = order::indices_view(order@);
    if edit::edits_overlap(&sorted) {
        return None;
    }
    proof {
        edit::lemma_sorted_edits(pv, t.len() as int);
        edit::lemma_edits_ordered(sv, t.len() as int);
        order::lemma_sorted_order(edit::edit_keys(pv), pv.len() as int);
        assert forall|k: int| #![trigger sv[k]] 0 <= k < sv.len() implies sv[k].2.len() <= m by {
            assert(sv[k] == pv[ov[k]]);
        }
        edit::lemma_added(sv, m, sv.len() as int);
        assert(sv.len() * m <= (2 * selections@.len()) * m) by (nonlinear_arith)
            requires
                sv.len() <= 2 * selections@.len(),
                m >= 0,
        ;
        assert forall|i: int, j: int|
            #![trigger order@[i], order@[j]]
            0 <= i < j < order@.len() implies order@[i] != order@[j] by {
            assert(ov[i] == order@[i] && ov[j] == order@[j]);
        }
    }
    let spans = resolve_edit_spans(&sorted, &order);
    let mut selections_after: Vec<EditorSelection> = Vec::new();
    let mut j: usize = 0;
    while j < selections.len()
        invariant
            j <= selections@.len(),
            o == encode_utf8(open@),
            sv == edit::edits_view(sorted@),
            ov == order::indices_view(order@),
            pv == block_edits(t, selections@, o, c, selections@.len() as int),
            block_context(t, selections@, o, c, sv, ov),
            spans_resolved(sv, ov, spans@),
            all_valid(t, selections@, selections@.len() as int),
            changes@.len() == selections@.len(),
            forall|k: int|
                0 <= k < selections@.len() ==> #[trigger] changes@[k] == change_view(
                    t,
                    selections@[k],
                    o,
                    c,
                    block_edits(t, selections@, o, c, k).len() as int,
                ),
            forall|k: int|
                #![trigger changes@[k]]
                0 <= k < selections@.len() ==> block_edits(t, selections@, o, c, k).len() + (
                if changes@[k] is Wrapped {
                    2int
                } else {
                    1int
                }) <= pv.len(),
            pv.len() <= usize::MAX,
            selections_after@.len() == j,
            forall|k: int|
                0 <= k < j ==> #[trigger] selections_after@[k] == block_selection_after(
                    t,
                    selections@[k],
                    o,
                    c,
                    block_edits(t, selections@, o, c, k).len() as int,
                    sv,
                    ov,
                ),
        decreases selections.len() - j,
    {
        let after = resolve_block_selection(
            selections,
            j,
            changes[j],
            open.as_bytes().len(),
            &sorted,
            &spans,
            Ghost(t),
            Ghost(o),
            Ghost(c),
            Ghost(ov),
        );
        selections_after.push(after);
        j = j + 1;
    }
    proof {
        let expected = (toggle_block_plan(t, selections@, o, c)->Some_0).1;
        assert(selections_after@ =~= expected);
    }
    Some(EditPlan { edits: sorted, selections_after })
}

/// The sorted edits and their order are those of the selections, and the new
/// text fits.
spec fn block_context(
    t: Seq<u8>,
    selections: Seq<EditorSelection>,
    open: Seq<u8>,
    close: Seq<u8>,
    sorted: Seq<(int, int, Seq<u8>)>,
    order: Seq<int>,
) -> bool {
    let planned = block_edits(t, selections, open, close, selections.len() as int);
    &&& sorted == edit::sorted_edits(planned)
    &&& order == order::sorted_order(edit::edit_keys(planned), planned.len() as int)
    &&& order::is_stable_order(edit::edit_keys(planned), order, planned.len() as int)
    &&& edit::edits_ordered(sorted, t.len() as int)
    &&& t.len() + edit::added(sorted, sorted.len() as int) <= usize::MAX
}

pub(crate) open spec fn spans_resolved(
    sorted: Seq<(int, int, Seq<u8>)>,
    order: Seq<int>,
    spans: Seq<(usize, usize)>,
) -> bool {
    &&& spans.len() == sorted.len()
    &&& order.len() == sorted.len()
    &&& forall|p: int|
        #![trigger order[p]]
        0 <= p < order.len() ==> spans[order[p]].0 == sorted[p].0 + edit::growth(sorted, p)
            && spans[order[p]].1 == spans[order[p]].0 + sorted[p].2.len()
}

/// The selection after the edits.
#[verifier::rlimit(60)]
#[verifier::spinoff_prover]
fn resolve_block_selection(
    selections: &[EditorSelection],
    i: usize,
    change: BlockChange,
    open_len: usize,
    sorted: &Vec<(Range<usize>, String)>,
    spans: &Vec<(usize, usize)>,
    Ghost(t): Ghost<Seq<u8>>,
    Ghost(open): Ghost<Seq<u8>>,
    Ghost(close): Ghost<Seq<u8>>,
    Ghost(order): Ghost<Seq<int>>,
) -> (after: EditorSelection)
    requires
        i < selections@.len(),
        open_len == open.len(),
        is_valid_selection(t, selections@[i as int]),
        block_context(t, selections@, open, close, edit::edits_view(sorted@), order),
        spans_resolved(edit::edits_view(sorted@), order, spans@),
        change == change_view(
            t,
            selections@[i as int],
            open,
            close,
            block_edits(t, selections@, open, close, i as int).len() as int,
        ),
        block_edits(t, selections@, open, close, i as int).len() + (if change is Wrapped {
            2int
        } else {
            1int
        }) <= sorted@.len(),
    ensures
        after == block_selection_after(
            t,
            selections@[i as int],
            open,
            close,
            block_edits(t, selections@, open, close, i as int).len() as int,
            edit::edits_view(sorted@),
            order,
        ),
{
    let selection = selections[i];
    let ghost sv = edit::edits_view(sorted@);
    let ghost first = block_edits(t, selections@, open, close, i as int).len() as int;
    assert(sorted.len() == sorted@.len());
    assert(order.contains(first));
    let ghost p = order.index_of(first);
    assert(0 <= p < order.len() && order[p] == first);
    match change {
        BlockChange::Removed => {
            let start = move_past(sorted, selection.range.start, Ghost(t.len() as int));
            let end = move_past(sorted, selection.range.end, Ghost(t.len() as int));
            EditorSelection::between(start, end, selection.reversed)
        },
        BlockChange::Caret(id) => {
            proof {
                lemma_span_of_caret(t, selections@, open, close, i as int, sv, order);
                edit::lemma_added_monotonic(sv, p + 1, sv.len() as int);
                edit::lemma_removed(sv, t.len() as int, p);
            }
            EditorSelection::caret(spans[id].0 + (open_len + 1))
        },
        BlockChange::Wrapped(id) => {
            assert(order.contains(first + 1));
            let ghost q = order.index_of(first + 1);
            assert(0 <= q < order.len() && order[q] == first + 1);
            EditorSelection::between(spans[id].1, spans[id + 1].0, selection.reversed)
        },
    }
}

/// The edit around a caret inserts more than the caret moves.
proof fn lemma_span_of_caret(
    t: Seq<u8>,
    selections: Seq<EditorSelection>,
    open: Seq<u8>,
    close: Seq<u8>,
    i: int,
    sorted: Seq<(int, int, Seq<u8>)>,
    order: Seq<int>,
)
    requires
        0 <= i < selections.len(),
        comment_around(t, selections[i], open, close) is None,
        selections[i].range.start == selections[i].range.end,
        ({
            let planned = block_edits(t, selections, open, close, selections.len() as int);
            &&& sorted == edit::sorted_edits(planned)
            &&& order == order::sorted_order(edit::edit_keys(planned), planned.len() as int)
            &&& order::is_stable_order(edit::edit_keys(planned), order, planned.len() as int)
        }),
    ensures
        ({
            let id = block_edits(t, selections, open, close, i).len() as int;
            let p = order.index_of(id);
            0 <= p < order.len() && order[p] == id && sorted[p].2.len() == open.len() + close.len() + 2
        }),
{
    let n = selections.len() as int;
    let planned = block_edits(t, selections, open, close, n);
    let id = block_edits(t, selections, open, close, i).len() as int;
    lemma_block_edits_len(t, selections, open, close, i + 1, n);
    lemma_block_edits_prefix(t, selections, open, close, i + 1, n);
    assert(block_edits(t, selections, open, close, i + 1)[id] == planned[id]);
    assert(order.contains(id));
}

proof fn lemma_block_edits_prefix(
    t: Seq<u8>,
    selections: Seq<EditorSelection>,
    open: Seq<u8>,
    close: Seq<u8>,
    a: int,
    b: int,
)
    requires
        0 <= a <= b,
    ensures
        block_edits(t, selections, open, close, a).is_prefix_of(
            block_edits(t, selections, open, close, b),
        ),
    decreases b - a,
{
    if a < b {
        lemma_block_edits_prefix(t, selections, open, close, a, b - 1);
    }
}

} // verus!
