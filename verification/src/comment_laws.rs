//! What commenting lines comes to.

use crate::comment;
use crate::cursor::EditorSelection;
use crate::edit;
use crate::text;
use crate::text_laws;
use vstd::prelude::*;

verus! {

/// Nothing but spaces and tabs.
pub open spec fn is_space(a: Seq<u8>) -> bool {
    forall|i: int| 0 <= i < a.len() ==> #[trigger] a[i] == 32 || a[i] == 9
}

/// A text that begins with neither a space nor a tab.
pub open spec fn begins_with_text(b: Seq<u8>) -> bool {
    b.len() > 0 && b[0] != 32 && b[0] != 9
}

pub open spec fn begins_with(b: Seq<u8>, token: Seq<u8>) -> bool {
    token.len() <= b.len() && b.take(token.len() as int) == token
}

proof fn lemma_blank_end(a: Seq<u8>, b: Seq<u8>, from: int)
    requires
        is_space(a),
        b.len() == 0 || begins_with_text(b),
        0 <= from <= a.len(),
    ensures
        comment::blank_end(a + b, from) == a.len(),
    decreases a.len() - from,
{
    if from < a.len() {
        assert((a + b)[from] == a[from]);
        lemma_blank_end(a, b, from + 1);
    } else if b.len() > 0 {
        assert((a + b)[from] == b[0]);
    }
}

/// The indentation of a line is all the white space before its text, a line without
/// text is blank, and a line is commented where its text begins with the token.
pub proof fn law_indentation(a: Seq<u8>, b: Seq<u8>, token: Seq<u8>)
    requires
        is_space(a),
        b.len() == 0 || begins_with_text(b),
    ensures
        comment::indentation_len(a + b) == a.len(),
        comment::is_blank(a + b) <==> b.len() == 0,
        comment::is_commented(a + b, token) <==> b.len() > 0 && begins_with(b, token),
{
    lemma_blank_end(a, b, 0);
    let n = a.len() as int;
    if token.len() <= b.len() {
        assert((a + b).subrange(n, n + token.len()) =~= b.take(token.len() as int));
    }
}

/// The rows of a selection are those from its start to its end; a row at whose very
/// start it ends does not count.
#[verifier::rlimit(30)]
pub proof fn law_selected_rows(t: Seq<u8>, selection: EditorSelection)
    requires
        selection.range.start <= selection.range.end <= t.len(),
        text::is_boundary(t, selection.range.start as int),
        text::is_boundary(t, selection.range.end as int),
    ensures
        ({
            let start = selection.range.start as int;
            let end = selection.range.end as int;
            comment::selection_rows(t, selection) == Some(
                (
                    text_laws::feeds(t.take(start)),
                    text_laws::feeds(t.take(end)) - if start < end && t[end - 1] == 10 {
                        1int
                    } else {
                        0int
                    },
                ),
            )
        }),
{
    let start = selection.range.start as int;
    let end = selection.range.end as int;
    text::lemma_floor_boundary(t, start);
    text::lemma_floor_boundary(t, end);
    text_laws::lemma_feeds(t, start);
    text_laws::lemma_feeds(t, end);
    let last = text::row_at(t, end);
    if start < end {
        if t[end - 1] == 10 {
            text_laws::lemma_start_of_row(t, end);
            text::lemma_newlines_monotonic(t, start, end - 1);
        } else if end == text::line_start(t, last) {
            text::lemma_row_at(t, end);
            text::lemma_line_start(t, last);
            if last == 0 {
                assert(text::line_start(t, 0) == 0);
            }
        }
    }
}

proof fn lemma_columns(s: Seq<u8>, n: int, size: int)
    requires
        0 <= n < s.len(),
        size >= 1,
    ensures
        comment::visible_column(s, n, size) < comment::visible_column(s, n + 1, size),
        0 <= comment::visible_column(s, n, size),
    decreases n,
{
    if n > 0 {
        lemma_columns(s, n - 1, size);
    }
    let column = comment::visible_column(s, n, size);
    assert(0 <= column % size < size) by (nonlinear_arith)
        requires
            size >= 1,
    ;
}

proof fn lemma_columns_rise(s: Seq<u8>, m: int, n: int, size: int)
    requires
        0 <= m < n <= s.len(),
        size >= 1,
    ensures
        comment::visible_column(s, m, size) < comment::visible_column(s, n, size),
    decreases n - m,
{
    lemma_columns(s, n - 1, size);
    if m < n - 1 {
        lemma_columns_rise(s, m, n - 1, size);
    }
}

proof fn lemma_at_own_column(s: Seq<u8>, from: int, len: int, size: int)
    requires
        0 <= from <= len <= s.len(),
        size >= 1,
    ensures
        comment::column_offset(s, from, len, comment::visible_column(s, len, size), size) == len,
    decreases len - from,
{
    if from < len {
        lemma_columns_rise(s, from, len, size);
        if from + 1 < len {
            lemma_columns_rise(s, from + 1, len, size);
        }
        lemma_at_own_column(s, from + 1, len, size);
    }
}

/// The token and a space go before the text of a line that is not commented, behind
/// its indentation.
#[verifier::rlimit(30)]
pub proof fn law_line_is_commented(
    x: Seq<u8>,
    a: Seq<u8>,
    b: Seq<u8>,
    y: Seq<u8>,
    token: Seq<u8>,
    size: int,
)
    requires
        text_laws::ends_row(x),
        text_laws::is_row_text(a + b),
        text_laws::begins_with_ending(y),
        is_space(a),
        begins_with_text(b),
        !begins_with(b, token),
        size >= 1,
    ensures
        ({
            let t = x + (a + b) + y;
            edit::applied(t, comment::group_edits(t, seq![text_laws::feeds(x)], token, size)) == x + a
                + token + seq![32u8] + b + y
        }),
{
    let s = a + b;
    let t = x + s + y;
    let row = text_laws::feeds(x);
    let rows = seq![row];
    let n = a.len() as int;
    text_laws::law_row(x, s, y, 0);
    law_indentation(a, b, token);
    let column = comment::visible_column(s, n, size);
    assert(rows[0] == row);
    assert(!comment::all_blank(t, rows, 1)) by {
        assert(!comment::is_blank(text::content_bytes(t, rows[0])));
    }
    assert(!comment::all_commented(t, rows, token, 1)) by {
        assert(!comment::is_commented(text::content_bytes(t, rows[0]), token));
    }
    assert(comment::least_column(t, rows, false, size, 0) is None);
    assert(comment::least_column(t, rows, false, size, 1) == Some(column));
    lemma_at_own_column(s, 0, n, size);
    let offset = x.len() + n;
    let edit = (offset, offset, token.push(32));
    assert(comment::comment_edits(t, rows, false, column, size, token, 0).len() == 0);
    assert(comment::group_edits(t, rows, token, size) =~= seq![edit]);
    assert(t =~= (x + a) + Seq::<u8>::empty() + (b + y));
    text_laws::law_text_around_edit(x + a, Seq::empty(), b + y, token.push(32));
    assert(x + a + token.push(32) + (b + y) =~= x + a + token + seq![32u8] + b + y);
}

/// The token of a commented line goes, and one space behind it.
#[verifier::rlimit(30)]
pub proof fn law_line_is_uncommented(
    x: Seq<u8>,
    a: Seq<u8>,
    c: Seq<u8>,
    y: Seq<u8>,
    token: Seq<u8>,
    size: int,
)
    requires
        text_laws::ends_row(x),
        text_laws::is_row_text(a + token + c),
        text_laws::begins_with_ending(y),
        is_space(a),
        begins_with_text(token),
    ensures
        ({
            let t = x + (a + token + c) + y;
            edit::applied(t, comment::group_edits(t, seq![text_laws::feeds(x)], token, size)) == x + a
                + (if c.len() > 0 && c[0] == 32 {
                c.skip(1)
            } else {
                c
            }) + y
        }),
{
    let s = a + token + c;
    let t = x + s + y;
    let row = text_laws::feeds(x);
    let rows = seq![row];
    let n = a.len() as int;
    let kept = if c.len() > 0 && c[0] == 32 {
        c.skip(1)
    } else {
        c
    };
    let gone = if c.len() > 0 && c[0] == 32 {
        token.push(32)
    } else {
        token
    };
    assert(s =~= a + (token + c));
    text_laws::law_row(x, s, y, 0);
    assert((token + c).take(token.len() as int) =~= token);
    law_indentation(a, token + c, token);
    assert(rows[0] == row);
    assert(!comment::all_blank(t, rows, 1)) by {
        assert(!comment::is_blank(text::content_bytes(t, rows[0])));
    }
    assert(comment::all_commented(t, rows, token, 1));
    assert(s.subrange(n, n + token.len()) =~= token);
    if c.len() > 0 {
        assert(s[n + token.len()] == c[0]);
    }
    let start = x.len() + n;
    let edit = (start, start + gone.len(), Seq::<u8>::empty());
    assert(comment::uncomment_edits(t, rows, token, 0).len() == 0);
    assert(comment::group_edits(t, rows, token, size) =~= seq![edit]);
    assert(t =~= (x + a) + gone + (kept + y));
    text_laws::law_text_around_edit(x + a, gone, kept + y, Seq::empty());
    assert(x + a + Seq::<u8>::empty() + (kept + y) =~= x + a + kept + y);
}

/// Among rows of which one with text is not commented, every row with text gets a
/// comment; where all of those are commented, every one loses it.
pub proof fn law_comments_come_together(
    t: Seq<u8>,
    rows: Seq<int>,
    token: Seq<u8>,
    size: int,
    i: int,
    k: int,
)
    requires
        0 <= i < rows.len(),
        !comment::is_blank(text::content_bytes(t, rows[i])),
        0 <= k < comment::group_edits(t, rows, token, size).len(),
    ensures
        ({
            let edit = comment::group_edits(t, rows, token, size)[k];
            &&& !comment::is_commented(text::content_bytes(t, rows[i]), token) ==> edit.0 == edit.1
                && edit.2 == token.push(32)
            &&& (forall|j: int|
                0 <= j < rows.len() ==> comment::is_commented(
                    text::content_bytes(t, #[trigger] rows[j]),
                    token,
                )) ==> edit.2.len() == 0 && edit.1 >= edit.0 + token.len()
        }),
{
    let n = rows.len() as int;
    assert(!comment::all_blank(t, rows, n));
    let target = comment::least_column(t, rows, false, size, n);
    let column = if target is Some {
        target->0
    } else {
        0
    };
    if comment::all_commented(t, rows, token, n) {
        lemma_all_removed(t, rows, token, n, k);
    } else {
        lemma_all_inserted(t, rows, column, size, token, n, k);
    }
}

proof fn lemma_all_inserted(
    t: Seq<u8>,
    rows: Seq<int>,
    target: int,
    size: int,
    token: Seq<u8>,
    n: int,
    k: int,
)
    requires
        0 <= k < comment::comment_edits(t, rows, false, target, size, token, n).len(),
    ensures
        ({
            let edit = comment::comment_edits(t, rows, false, target, size, token, n)[k];
            edit.0 == edit.1 && edit.2 == token.push(32)
        }),
    decreases n,
{
    if n > 0 {
        let before = comment::comment_edits(t, rows, false, target, size, token, n - 1);
        if k < before.len() {
            lemma_all_inserted(t, rows, target, size, token, n - 1, k);
            assert(comment::comment_edits(t, rows, false, target, size, token, n)[k] == before[k]);
        }
    }
}

proof fn lemma_all_removed(t: Seq<u8>, rows: Seq<int>, token: Seq<u8>, n: int, k: int)
    requires
        0 <= k < comment::uncomment_edits(t, rows, token, n).len(),
    ensures
        ({
            let edit = comment::uncomment_edits(t, rows, token, n)[k];
            edit.2.len() == 0 && edit.1 >= edit.0 + token.len()
        }),
    decreases n,
{
    if n > 0 {
        let before = comment::uncomment_edits(t, rows, token, n - 1);
        if k < before.len() {
            lemma_all_removed(t, rows, token, n - 1, k);
            assert(comment::uncomment_edits(t, rows, token, n)[k] == before[k]);
        }
    }
}

/// The comments of several rows stand in one column: that of the row with text that is
/// indented least.
pub proof fn law_comments_line_up(t: Seq<u8>, rows: Seq<int>, size: int, i: int)
    requires
        0 <= i < rows.len(),
        !comment::is_blank(text::content_bytes(t, rows[i])),
        size >= 1,
    ensures
        ({
            let least = comment::least_column(t, rows, false, size, rows.len() as int);
            &&& least is Some
            &&& least->0 <= comment::indentation_column(t, rows[i], size)
            &&& exists|j: int|
                0 <= j < rows.len() && !comment::is_blank(
                    text::content_bytes(t, #[trigger] rows[j]),
                ) && least->0 == comment::indentation_column(t, rows[j], size)
        }),
{
    lemma_least(t, rows, size, rows.len() as int, i);
}

#[verifier::rlimit(30)]
proof fn lemma_least(t: Seq<u8>, rows: Seq<int>, size: int, n: int, i: int)
    requires
        0 <= n <= rows.len(),
    ensures
        ({
            let least = comment::least_column(t, rows, false, size, n);
            &&& 0 <= i < n && !comment::is_blank(text::content_bytes(t, rows[i])) ==> least is Some
                && least->0 <= comment::indentation_column(t, rows[i], size)
            &&& least is Some ==> exists|j: int|
                0 <= j < n && !comment::is_blank(text::content_bytes(t, #[trigger] rows[j]))
                    && least->0 == comment::indentation_column(t, rows[j], size)
        }),
    decreases n,
{
    if n > 0 {
        lemma_least(t, rows, size, n - 1, i);
        let least = comment::least_column(t, rows, false, size, n);
        let before = comment::least_column(t, rows, false, size, n - 1);
        if least is Some {
            if least == before {
                let j = choose|j: int|
                    0 <= j < n - 1 && !comment::is_blank(
                        text::content_bytes(t, #[trigger] rows[j]),
                    ) && before->0 == comment::indentation_column(t, rows[j], size);
                assert(0 <= j < n);
            } else {
                assert(least->0 == comment::indentation_column(t, rows[n - 1], size));
            }
        }
    }
}

/// In a line whose indentation is of spaces a comment stands as many bytes from its
/// start as the column says.
pub proof fn law_column_of_spaces(s: Seq<u8>, len: int, target: int, size: int)
    requires
        0 <= target <= len <= s.len(),
        forall|i: int| 0 <= i < len ==> #[trigger] s[i] == 32,
    ensures
        comment::visible_column(s, len, size) == len,
        comment::column_offset(s, 0, len, target, size) == target,
{
    lemma_spaces(s, len, size);
    lemma_column_of_spaces(s, 0, len, target, size);
}

proof fn lemma_spaces(s: Seq<u8>, n: int, size: int)
    requires
        0 <= n <= s.len(),
        forall|i: int| 0 <= i < n ==> #[trigger] s[i] == 32,
    ensures
        comment::visible_column(s, n, size) == n,
    decreases n,
{
    if n > 0 {
        lemma_spaces(s, n - 1, size);
        assert(s[n - 1] == 32);
    }
}

proof fn lemma_column_of_spaces(s: Seq<u8>, from: int, len: int, target: int, size: int)
    requires
        0 <= from <= target <= len <= s.len(),
        forall|i: int| 0 <= i < len ==> #[trigger] s[i] == 32,
    ensures
        comment::column_offset(s, from, len, target, size) == target,
    decreases len - from,
{
    if from < len {
        lemma_spaces(s, from, size);
        lemma_spaces(s, from + 1, size);
        if from < target {
            lemma_column_of_spaces(s, from + 1, len, target, size);
        }
    }
}

/// A selection in no block comment is put between the delimiters, with a space inside
/// each; at a caret they are put with two spaces between them.
pub proof fn law_block_comment_is_added(
    x: Seq<u8>,
    m: Seq<u8>,
    y: Seq<u8>,
    selection: EditorSelection,
    open: Seq<u8>,
    close: Seq<u8>,
)
    requires
        selection.range.start == x.len(),
        selection.range.end == x.len() + m.len(),
        comment::comment_around(x + m + y, selection, open, close) is None,
    ensures
        edit::applied(x + m + y, comment::block_edits_for(x + m + y, selection, open, close)) == x
            + open + seq![32u8] + m + seq![32u8] + close + y,
{
    let t = x + m + y;
    let edits = comment::block_edits_for(t, selection, open, close);
    let start = x.len() as int;
    let end = start + m.len();
    if m.len() == 0 {
        assert(t =~= x + Seq::<u8>::empty() + y);
        text_laws::law_text_around_edit(x, Seq::empty(), y, open + seq![32u8, 32u8] + close);
        assert(x + (open + seq![32u8, 32u8] + close) + y =~= x + open + seq![32u8] + m + seq![32u8]
            + close + y);
    } else {
        let second = edit::replaced(t, edits.last());
        assert(second =~= x + m + (seq![32u8] + close) + y);
        let one = edits.drop_last();
        assert(edit::replaced(second, one.last()) =~= x + open + seq![32u8] + m + seq![32u8] + close
            + y);
        assert(one.drop_last().len() == 0);
        reveal_with_fuel(edit::applied, 3);
    }
}

} // verus!
