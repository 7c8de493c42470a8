//! What inserting, copying and duplicating lines come to.

use crate::comment;
use crate::comment_laws;
use crate::cursor;
use crate::cursor::EditorSelection;
use crate::edit;
use crate::line_operations as lines;
use crate::line_operations::{InsertLineDirection, LineDirection};
use crate::order;
use crate::text;
use crate::text_laws;
use vstd::prelude::*;

verus! {

/// The line ending at the beginning of `y`.
pub open spec fn ending_of(y: Seq<u8>) -> Seq<u8> {
    if y.len() == 0 {
        Seq::empty()
    } else if y[0] == 13 {
        seq![13u8, 10u8]
    } else {
        seq![10u8]
    }
}

/// The line ending of a document is that behind its first line, and a line feed where
/// there is but one line.
pub proof fn law_line_ending(line: Seq<u8>, y: Seq<u8>)
    requires
        text_laws::is_row_text(line),
        text_laws::begins_with_ending(y),
    ensures
        lines::line_ending(line + y) == (if y.len() == 0 {
            seq![10u8]
        } else {
            ending_of(y)
        }),
{
    let x = Seq::<u8>::empty();
    assert(x + line + y =~= line + y);
    text_laws::law_row(x, line, y, 0);
    let t = line + y;
    let first = text::line_bytes(t, 0);
    if y.len() > 0 && y[0] == 13 {
        assert(first.last() == 13);
    } else {
        assert(first =~= line);
    }
}

proof fn lemma_leading(x: Seq<u8>, a: Seq<u8>, b: Seq<u8>, y: Seq<u8>)
    requires
        text_laws::ends_row(x),
        text_laws::is_row_text(a + b),
        text_laws::begins_with_ending(y),
        comment_laws::is_space(a),
        b.len() == 0 || comment_laws::begins_with_text(b),
    ensures
        lines::leading_indentation(x + (a + b) + y, text_laws::feeds(x)) == a,
{
    text_laws::law_row(x, a + b, y, 0);
    let more = if y.len() > 0 && y[0] == 13 {
        seq![13u8]
    } else {
        Seq::empty()
    };
    assert((a + b) + more =~= a + (b + more));
    comment_laws::law_indentation(a, b + more, Seq::empty());
    assert((a + (b + more)).subrange(0, a.len() as int) =~= a);
}

/// A line inserted above another has its indentation; the caret stands behind that.
pub proof fn law_line_inserted_above(x: Seq<u8>, a: Seq<u8>, b: Seq<u8>, y: Seq<u8>)
    requires
        text_laws::ends_row(x),
        text_laws::is_row_text(a + b),
        text_laws::begins_with_ending(y),
        comment_laws::is_space(a),
        b.len() == 0 || comment_laws::begins_with_text(b),
    ensures
        ({
            let t = x + (a + b) + y;
            let rows = seq![text_laws::feeds(x)];
            &&& edit::applied(t, lines::insert_edits(t, rows, InsertLineDirection::Above)) == x + a
                + lines::line_ending(t) + (a + b + y)
            &&& lines::insert_caret(t, rows, InsertLineDirection::Above, 0) == x.len() + a.len()
        }),
{
    let t = x + (a + b) + y;
    let sep = lines::line_ending(t);
    let row = text_laws::feeds(x);
    let rows = seq![row];
    let start = x.len() as int;
    text_laws::law_row(x, a + b, y, 0);
    lemma_leading(x, a, b, y);
    assert(rows[0] == row);
    let edits = lines::insert_edits(t, rows, InsertLineDirection::Above);
    assert(edits =~= seq![(start, start, a + sep)]);
    assert(edit::added(edits, 0) == 0);
    assert(t =~= x + Seq::<u8>::empty() + (a + b + y));
    text_laws::law_text_around_edit(x, Seq::empty(), a + b + y, a + sep);
    assert(x + (a + sep) + (a + b + y) =~= x + a + sep + (a + b + y));
}

/// A line inserted below another has its indentation; the caret stands behind that.
#[verifier::rlimit(30)]
pub proof fn law_line_inserted_below(x: Seq<u8>, a: Seq<u8>, b: Seq<u8>, y: Seq<u8>)
    requires
        text_laws::ends_row(x),
        text_laws::is_row_text(a + b),
        text_laws::begins_with_ending(y),
        comment_laws::is_space(a),
        b.len() == 0 || comment_laws::begins_with_text(b),
    ensures
        ({
            let t = x + (a + b) + y;
            let sep = lines::line_ending(t);
            let rows = seq![text_laws::feeds(x)];
            let n = ending_of(y).len() as int;
            let after = edit::applied(
                t,
                lines::insert_edits(t, rows, InsertLineDirection::Below),
            );
            let caret = lines::insert_caret(t, rows, InsertLineDirection::Below, 0);
            let head = x + (a + b) + ending_of(y);
            &&& y.len() > 0 ==> after == head + (a + sep) + y.skip(n) && caret == head.len()
                + a.len()
            &&& y.len() == 0 ==> after == head + (sep + a) && caret == after.len()
        }),
{
    let t = x + (a + b) + y;
    let sep = lines::line_ending(t);
    let row = text_laws::feeds(x);
    let rows = seq![row];
    text_laws::law_row(x, a + b, y, 0);
    lemma_leading(x, a, b, y);
    assert(rows[0] == row);
    let edits = lines::insert_edits(t, rows, InsertLineDirection::Below);
    assert(edit::added(edits, 0) == 0);
    let head = x + (a + b) + ending_of(y);
    let at = head.len() as int;
    if y.len() > 0 {
        lemma_split(x + (a + b), y);
        let rest = y.skip(ending_of(y).len() as int);
        assert(edits =~= seq![(at, at, a + sep)]);
        text_laws::law_text_around_edit(head, Seq::empty(), rest, a + sep);
    } else {
        assert(head =~= t);
        assert(edits =~= seq![(at, at, sep + a)]);
        assert(t =~= head + Seq::<u8>::empty() + Seq::<u8>::empty());
        text_laws::law_text_around_edit(head, Seq::empty(), Seq::empty(), sep + a);
        assert(head + (sep + a) + Seq::<u8>::empty() =~= head + (sep + a));
    }
}

proof fn lemma_split(x: Seq<u8>, y: Seq<u8>)
    requires
        text_laws::begins_with_ending(y),
    ensures
        x + y == x + ending_of(y) + Seq::<u8>::empty() + y.skip(ending_of(y).len() as int),
{
    let n = ending_of(y).len() as int;
    assert(y =~= ending_of(y) + y.skip(n));
    assert(x + y =~= x + ending_of(y) + Seq::<u8>::empty() + y.skip(n));
}

/// Duplicating a caret writes its line once more below it.
#[verifier::rlimit(30)]
pub proof fn law_duplicated_line(
    x: Seq<u8>,
    line: Seq<u8>,
    y: Seq<u8>,
    selection: EditorSelection,
    column: int,
)
    requires
        text_laws::ends_row(x),
        text_laws::is_row_text(line),
        text_laws::begins_with_ending(y),
        0 <= column <= line.len(),
        selection.range.start == selection.range.end == x.len() + column,
        text::is_boundary(x + line + y, x.len() + column),
    ensures
        ({
            let t = x + line + y;
            let sep = lines::line_ending(t);
            let n = ending_of(y).len() as int;
            let (at, copy, from, to) = lines::duplicate_of(t, selection);
            &&& from == to
            &&& y.len() > 0 ==> edit::applied(t, seq![(at, at, copy)]) == x + line + ending_of(y)
                + line + sep + y.skip(n) && at + from == x.len() + line.len() + n + column
            &&& y.len() == 0 ==> edit::applied(t, seq![(at, at, copy)]) == x + line + sep + line
                && at + from == x.len() + line.len() + sep.len() + column
        }),
{
    let t = x + line + y;
    let sep = lines::line_ending(t);
    let o = x.len() + column;
    text_laws::law_row(x, line, y, o);
    text::lemma_floor_boundary(t, o);
    let (at, copy, from, to) = lines::duplicate_of(t, selection);
    assert(text::column_at(t, o) == column);
    if y.len() > 0 {
        let n = ending_of(y).len() as int;
        let head = x + line + ending_of(y);
        assert(y =~= ending_of(y) + y.skip(n));
        assert(t =~= head + Seq::<u8>::empty() + y.skip(n));
        text_laws::law_text_around_edit(head, Seq::empty(), y.skip(n), line + sep);
        assert(head + (line + sep) + y.skip(n) =~= x + line + ending_of(y) + line + sep + y.skip(
            n,
        ));
    } else {
        assert(t =~= t + Seq::<u8>::empty() + Seq::<u8>::empty());
        text_laws::law_text_around_edit(t, Seq::empty(), Seq::empty(), sep + line);
        assert(t + (sep + line) + Seq::<u8>::empty() =~= x + line + sep + line);
    }
}

/// Duplicating a selection writes its text once more behind it, and the second one is
/// selected.
pub proof fn law_duplicated_selection(
    x: Seq<u8>,
    m: Seq<u8>,
    y: Seq<u8>,
    selection: EditorSelection,
)
    requires
        m.len() > 0,
        selection.range.start == x.len(),
        selection.range.end == x.len() + m.len(),
    ensures
        ({
            let t = x + m + y;
            let (at, copy, from, to) = lines::duplicate_of(t, selection);
            let after = edit::applied(t, seq![(at, at, copy)]);
            &&& after == x + m + m + y
            &&& at + from == x.len() + m.len()
            &&& after.subrange(at + from, at + to) == m
        }),
{
    let t = x + m + y;
    assert(t.subrange(x.len() as int, (x.len() + m.len()) as int) =~= m);
    assert(t =~= (x + m) + Seq::<u8>::empty() + y);
    text_laws::law_text_around_edit(x + m, Seq::empty(), y, m);
    let start = (x.len() + m.len()) as int;
    assert((x + m + m + y).subrange(start, start + m.len()) =~= m);
}

proof fn lemma_copy_of_row(t: Seq<u8>, row: int)
    ensures
        ({
            let sep = lines::line_ending(t);
            let rows = lines::row_range(row, row);
            &&& rows.len() == 1
            &&& lines::joined(t, rows, sep, 1) == text::content_bytes(t, row)
            &&& lines::joined_start(t, rows, sep, 0) == 0
        }),
{
    let sep = lines::line_ending(t);
    let rows = lines::row_range(row, row);
    assert(rows.len() == 1 && rows[0] == row);
    assert(lines::joined(t, rows, sep, 0).len() == 0);
}

/// Copying the line of a caret up leaves two of them, and the caret in the upper one.
#[verifier::rlimit(30)]
pub proof fn law_line_copied_up(
    x: Seq<u8>,
    line: Seq<u8>,
    y: Seq<u8>,
    selection: EditorSelection,
    column: int,
)
    requires
        text_laws::ends_row(x),
        text_laws::is_row_text(line),
        text_laws::begins_with_ending(y),
        0 <= column <= line.len(),
        selection.range.start == selection.range.end == x.len() + column,
        text::is_boundary(x + line + y, x.len() + column),
    ensures
        ({
            let t = x + line + y;
            let row = text_laws::feeds(x);
            let copies = lines::copy_rewrites(t, seq![(row, row)], LineDirection::Up);
            &&& edit::applied(t, lines::rewrite_edits(copies)) == x + (line + lines::line_ending(t))
                + (line + y)
            &&& lines::rewritten_selection(t, selection, copies).range.start == x.len() + column
        }),
{
    let t = x + line + y;
    let sep = lines::line_ending(t);
    let row = text_laws::feeds(x);
    let o = x.len() + column;
    let blocks = seq![(row, row)];
    let start = x.len() as int;
    text_laws::law_row(x, line, y, o);
    text::lemma_floor_boundary(t, o);
    lemma_copy_of_row(t, row);
    let copies = lines::copy_rewrites(t, blocks, LineDirection::Up);
    assert(blocks[0] == (row, row));
    assert(copies[0] == lines::copy_rewrite(t, (row, row), LineDirection::Up));
    let edits = lines::rewrite_edits(copies);
    assert(edits =~= seq![(start, start, line + sep)]);
    assert(edit::growth(edits, 0) == 0);
    assert(lines::rewrite_of(copies, row, 0) == Some(0int));
    assert(copies[0].starts[0] == 0);
    assert(lines::rewritten_offset(t, o, copies[0], start, edits) == o);
    assert(t =~= x + Seq::<u8>::empty() + (line + y));
    text_laws::law_text_around_edit(x, Seq::empty(), line + y, line + sep);
}

/// Copying the line of a caret down leaves two of them, and the caret in the lower one.
#[verifier::rlimit(30)]
pub proof fn law_line_copied_down(
    x: Seq<u8>,
    line: Seq<u8>,
    y: Seq<u8>,
    selection: EditorSelection,
    column: int,
)
    requires
        text_laws::ends_row(x),
        text_laws::is_row_text(line),
        text_laws::begins_with_ending(y),
        0 <= column <= line.len(),
        selection.range.start == selection.range.end == x.len() + column,
        text::is_boundary(x + line + y, x.len() + column),
        2 * (x + line + y).len() + 2 <= usize::MAX,
    ensures
        ({
            let t = x + line + y;
            let sep = lines::line_ending(t);
            let row = text_laws::feeds(x);
            let copies = lines::copy_rewrites(t, seq![(row, row)], LineDirection::Down);
            let after = edit::applied(t, lines::rewrite_edits(copies));
            let caret = lines::rewritten_selection(t, selection, copies).range.start;
            let head = x + line + ending_of(y);
            &&& y.len() > 0 ==> after == head + (line + sep) + y.skip(ending_of(y).len() as int)
                && caret == head.len() + column
            &&& y.len() == 0 ==> after == head + (sep + line) && caret == head.len() + sep.len()
                + column
        }),
{
    let t = x + line + y;
    let sep = lines::line_ending(t);
    let row = text_laws::feeds(x);
    let o = x.len() + column;
    let blocks = seq![(row, row)];
    text_laws::law_row(x, line, y, o);
    text::lemma_floor_boundary(t, o);
    lemma_copy_of_row(t, row);
    let copies = lines::copy_rewrites(t, blocks, LineDirection::Down);
    assert(blocks[0] == (row, row));
    assert(copies[0] == lines::copy_rewrite(t, (row, row), LineDirection::Down));
    let edits = lines::rewrite_edits(copies);
    assert(edit::growth(edits, 0) == 0);
    assert(lines::rewrite_of(copies, row, 0) == Some(0int));
    let head = x + line + ending_of(y);
    let at = head.len() as int;
    if y.len() > 0 {
        lemma_split(x + line, y);
        let rest = y.skip(ending_of(y).len() as int);
        assert(edits =~= seq![(at, at, line + sep)]);
        assert(copies[0].starts[0] == 0);
        assert(lines::rewritten_offset(t, o, copies[0], at, edits) == at + column);
        text_laws::law_text_around_edit(head, Seq::empty(), rest, line + sep);
    } else {
        assert(head =~= t);
        assert(edits =~= seq![(at, at, sep + line)]);
        assert(copies[0].starts[0] == sep.len());
        assert(lines::rewritten_offset(t, o, copies[0], at, edits) == at + sep.len() + column);
        assert(t =~= head + Seq::<u8>::empty() + Seq::<u8>::empty());
        text_laws::law_text_around_edit(head, Seq::empty(), Seq::empty(), sep + line);
        assert(head + (sep + line) + Seq::<u8>::empty() =~= head + (sep + line));
    }
}

/// Moving a line changes places with the one above or below it, and the caret goes
/// with it.
#[verifier::rlimit(30)]
pub proof fn law_moved_line(
    x: Seq<u8>,
    upper: Seq<u8>,
    ending: Seq<u8>,
    lower: Seq<u8>,
    y: Seq<u8>,
)
    requires
        text_laws::ends_row(x),
        text_laws::is_row_text(upper),
        text_laws::is_row_text(lower),
        ending == seq![10u8] || ending == seq![13u8, 10u8],
        text_laws::begins_with_ending(y),
    ensures
        ({
            let t = x + upper + (ending + lower + y);
            let sep = lines::line_ending(t);
            let row = text_laws::feeds(x);
            let n = ending_of(y).len() as int;
            let down = lines::move_rewrite(t, (row, row), LineDirection::Down);
            let up = lines::move_rewrite(t, (row + 1, row + 1), LineDirection::Up);
            let edit = (
                x.len() as int,
                (x.len() + upper.len() + ending.len() + lower.len() + n) as int,
                lower + sep + upper + if n > 0 {
                    sep
                } else {
                    Seq::empty()
                },
            );
            &&& (down.start, down.end, down.text) == edit
            &&& (up.start, up.end, up.text) == edit
            &&& down.starts[0] == lower.len() + sep.len()
            &&& up.starts[0] == 0
        }),
{
    let rest = ending + lower + y;
    let t = x + upper + rest;
    let sep = lines::line_ending(t);
    let row = text_laws::feeds(x);
    assert(rest[0] == ending[0]);
    if ending.len() == 2 {
        assert(rest[1] == ending[1]);
    }
    text_laws::law_row(x, upper, rest, 0);
    let head = x + upper + ending;
    assert(t =~= head + lower + y);
    assert(head.last() == 10);
    text_laws::law_row(head, lower, y, 0);
    text_laws::lemma_feeds(t, head.len() as int);
    assert(t.take(head.len() as int) =~= head);
    text_laws::lemma_feeds(t, x.len() as int);
    assert(t.take(x.len() as int) =~= x);
    let e = head.len() - 1;
    assert(t[e] == 10);
    assert forall|i: int| x.len() <= i < e implies t[i] != 10 by {
        if i < x.len() + upper.len() {
            assert(t[i] == upper[i - x.len()]);
        } else {
            assert(t[i] == ending[i - x.len() - upper.len()]);
        }
    }
    text::lemma_newlines_gap(t, x.len() as int, e);
    assert(text_laws::feeds(head) == row + 1);
    let rows = seq![row + 1, row];
    let down_rows = lines::move_order((row, row), LineDirection::Down);
    let up_rows = lines::move_order((row + 1, row + 1), LineDirection::Up);
    assert(down_rows =~= rows);
    assert(up_rows =~= rows);
    assert(lines::joined(t, rows, sep, 0).len() == 0);
    assert(lines::joined(t, rows, sep, 1) == lower);
    assert(lines::joined(t, rows, sep, 2) == lower + sep + upper);
    assert(lower + sep + upper + Seq::<u8>::empty() =~= lower + sep + upper);
}

/// Two blocks of rows one below the other are handled together where they overlap, and
/// where they touch if that is asked; else each is handled by itself.
#[verifier::rlimit(30)]
pub proof fn law_two_blocks(a: (int, int), b: (int, int), adjacent: bool)
    requires
        a.0 <= a.1,
        b.0 <= b.1,
        a.0 <= b.0,
    ensures
        ({
            let slack = if adjacent {
                1int
            } else {
                0int
            };
            let both = lines::merged(seq![a, b], slack, 2);
            if b.0 <= a.1 || (adjacent && b.0 == a.1 + 1) {
                both == seq![
                    (
                        a.0,
                        if a.1 >= b.1 {
                            a.1
                        } else {
                            b.1
                        },
                    ),
                ]
            } else {
                both == seq![a, b]
            }
        }),
{
    let slack = if adjacent {
        1int
    } else {
        0int
    };
    let all = seq![a, b];
    assert(all[0] == a && all[1] == b);
    assert(lines::merged(all, slack, 0).len() == 0);
    let one = lines::merged(all, slack, 1);
    assert(one =~= seq![a]);
    let both = lines::merged(all, slack, 2);
    if b.0 <= a.1 + slack {
        assert(both =~= seq![(a.0, lines::max_int(a.1, b.1))]);
    } else {
        assert(both =~= seq![a, b]);
    }
}

/// A single selection within one row has the whole document sorted or reversed, but for
/// an empty last line; one over several rows has its own rows.
#[verifier::rlimit(30)]
pub proof fn law_rows_to_order(t: Seq<u8>, selection: EditorSelection)
    requires
        selection.range.start <= selection.range.end <= t.len(),
        text::is_boundary(t, selection.range.start as int),
        text::is_boundary(t, selection.range.end as int),
    ensures
        ({
            let all = seq![selection];
            let first = text_laws::feeds(t.take(selection.range.start as int));
            let last = text_laws::feeds(t.take(selection.range.end as int));
            let most = text_laws::feeds(t);
            let blank = text::content_bytes(t, most).len() == 0;
            &&& first == last ==> lines::sort_rows_of(t, all, 0) == (
                0int,
                if most > 0 && blank {
                    most - 1
                } else {
                    most
                },
            )
            &&& first == last ==> lines::reverse_rows_of(t, all, 0) == lines::sort_rows_of(t, all, 0)
            &&& first < last ==> lines::sort_rows_of(t, all, 0) == (
                first,
                if t[selection.range.end - 1] == 10 {
                    last - 1
                } else {
                    last
                },
            )
        }),
{
    let all = seq![selection];
    let start = selection.range.start as int;
    let end = selection.range.end as int;
    assert(all[0] == selection);
    text::lemma_floor_boundary(t, start);
    text::lemma_floor_boundary(t, end);
    text_laws::lemma_feeds(t, start);
    text_laws::lemma_feeds(t, end);
    text_laws::lemma_feeds(t, t.len() as int);
    text::lemma_newlines_bound(t, t.len() as int);
    assert(t.take(t.len() as int) =~= t);
    comment_laws::law_selected_rows(t, selection);
}

/// Deleting a line takes its line ending along, and the last line that before it; the
/// caret stands where the line was.
#[verifier::rlimit(30)]
pub proof fn law_deleted_line(x: Seq<u8>, line: Seq<u8>, y: Seq<u8>)
    requires
        text_laws::ends_row(x),
        text_laws::is_row_text(line),
        text_laws::begins_with_ending(y),
    ensures
        ({
            let t = x + line + y;
            let row = text_laws::feeds(x);
            let blocks = seq![(row, row)];
            let gone = lines::delete_range(t, (row, row));
            let n = x.len() as int;
            &&& y.len() > 0 ==> gone == (n, n + line.len() + ending_of(y).len())
            &&& y.len() == 0 ==> gone.1 == t.len() && gone.0 == if n >= 2 && x[n - 2] == 13 {
                n - 2
            } else if n >= 1 {
                n - 1
            } else {
                0
            }
            &&& lines::delete_caret(t, blocks, 0) == gone.0
        }),
{
    let t = x + line + y;
    let row = text_laws::feeds(x);
    let blocks = seq![(row, row)];
    let n = x.len() as int;
    text_laws::law_row(x, line, y, 0);
    assert(blocks[0] == (row, row));
    assert(lines::delete_edits(t, blocks, 0).len() == 0);
    if n >= 1 {
        assert(t[n - 1] == x[n - 1]);
    }
    if n >= 2 {
        assert(t[n - 2] == x[n - 2]);
    }
}

proof fn lemma_single_order(keys: Seq<(int, int)>)
    requires
        keys.len() == 1,
    ensures
        order::sorted_order(keys, 1) == seq![0int],
        seq![0int].index_of(0) == 0,
{
    let none = Seq::<int>::empty();
    assert(order::sorted_order(keys, 0) == none);
    assert(order::insert_position(keys, none, 0, 0) == 0);
    assert(order::sorted_order(keys, 1) =~= seq![0int]);
    let one = seq![0int];
    assert(one[0] == 0);
    assert(one.contains(0));
}

/// The rows of a single selection are one block.
pub proof fn law_block_of_one_selection(t: Seq<u8>, selection: EditorSelection, adjacent: bool)
    requires
        comment::selection_rows(t, selection) is Some,
    ensures
        lines::line_blocks(t, seq![selection], adjacent) == Some(
            seq![comment::selection_rows(t, selection)->Some_0],
        ),
{
    let all = seq![selection];
    let own = comment::selection_rows(t, selection)->Some_0;
    assert(all[0] == selection);
    let blocks = lines::block_rows(t, all);
    assert(blocks =~= seq![own]);
    lemma_single_order(blocks);
    assert(lines::sorted_blocks(blocks) =~= blocks);
    let slack = if adjacent {
        1int
    } else {
        0int
    };
    assert(lines::merged(blocks, slack, 0).len() == 0);
    assert(lines::merged(blocks, slack, 1) =~= blocks);
}

/// What is planned for a single selection is what is planned for the block of its rows:
/// a line is moved past the next one where there is one, and copied in any case.
#[verifier::rlimit(30)]
pub proof fn law_plans_of_one_selection(
    t: Seq<u8>,
    selection: EditorSelection,
    row: int,
    direction: LineDirection,
)
    requires
        comment::selection_rows(t, selection) == Some((row, row)),
    ensures
        ({
            let copies = lines::copy_rewrites(t, seq![(row, row)], direction);
            lines::copy_plan(t, seq![selection], direction) == Some(
                (
                    lines::rewrite_edits(copies),
                    seq![lines::rewritten_selection(t, selection, copies)],
                ),
            )
        }),
        ({
            let movable = if direction is Up {
                row > 0
            } else {
                row + 1 < text::line_count(t)
            };
            let moves = seq![lines::move_rewrite(t, (row, row), direction)];
            let plan = lines::move_plan(t, seq![selection], direction);
            &&& !movable ==> plan is None
            &&& movable ==> plan == Some(
                (
                    lines::rewrite_edits(moves),
                    seq![lines::rewritten_selection(t, selection, moves)],
                ),
            )
        }),
{
    let all = seq![selection];
    let blocks = seq![(row, row)];
    assert(all[0] == selection && blocks[0] == (row, row));
    law_block_of_one_selection(t, selection, true);
    law_block_of_one_selection(t, selection, false);
    let copies = lines::copy_rewrites(t, blocks, direction);
    assert(Seq::new(all.len(), |i: int| lines::rewritten_selection(t, all[i], copies)) =~= seq![
        lines::rewritten_selection(t, selection, copies),
    ]);
    let moved = lines::move_rewrites(t, blocks, direction, 1);
    assert(lines::move_rewrites(t, blocks, direction, 0).len() == 0);
    if lines::is_movable(t, (row, row), direction) {
        assert(moved =~= seq![lines::move_rewrite(t, (row, row), direction)]);
        assert(Seq::new(all.len(), |i: int| lines::rewritten_selection(t, all[i], moved)) =~= seq![
            lines::rewritten_selection(t, selection, moved),
        ]);
    } else {
        assert(moved.len() == 0);
    }
}

/// Duplicating a single selection inserts its copy, and what is selected then lies in
/// it.
pub proof fn law_duplicate_of_one_selection(t: Seq<u8>, selection: EditorSelection)
    requires
        comment::is_valid_selection(t, selection),
        t.len() + 2 * (t.len() + 2) <= usize::MAX,
    ensures
        ({
            let (at, copy, from, to) = lines::duplicate_of(t, selection);
            let plan = lines::duplicate_plan(t, seq![selection]);
            &&& plan is Some
            &&& (plan->Some_0).0 == seq![(at, at, copy)]
            &&& (plan->Some_0).1.len() == 1
            &&& (plan->Some_0).1[0].range.start == (at + from) as usize
            &&& (plan->Some_0).1[0].range.end == (at + to) as usize
        }),
{
    let all = seq![selection];
    let (at, copy, from, to) = lines::duplicate_of(t, selection);
    assert(all[0] == selection);
    let edits = lines::duplicate_edits(t, all);
    assert(edits =~= seq![(at, at, copy)]);
    let keys = edit::edit_keys(edits);
    lemma_single_order(keys);
    assert(edit::sorted_edits(edits) =~= edits);
    assert(edit::growth(edits, 0) == 0);
    assert(comment::all_valid(t, all, 1));
    assert(comment::span_start(edits, seq![0int], 0) == at);
}

/// A line is inserted next to the row of each caret, once.
#[verifier::rlimit(30)]
pub proof fn law_insertion_at_one_caret(
    t: Seq<u8>,
    selection: EditorSelection,
    direction: InsertLineDirection,
)
    ensures
        ({
            let rows = seq![text::row_at(t, selection.spec_head() as int)];
            let plan = lines::insert_plan(t, seq![selection], direction);
            &&& plan is Some
            &&& (plan->Some_0).0 == lines::insert_edits(t, rows, direction)
            &&& (plan->Some_0).1 == seq![
                cursor::spec_caret(lines::insert_caret(t, rows, direction, 0) as usize),
            ]
            &&& lines::insert_plan(t, seq![selection, selection], direction) matches Some(both)
                && both.0 == (plan->Some_0).0
        }),
{
    let all = seq![selection];
    let twice = seq![selection, selection];
    let row = text::row_at(t, selection.spec_head() as int);
    let rows = seq![row];
    let none = Seq::<int>::empty();
    assert(all[0] == selection && twice[0] == selection && twice[1] == selection);
    assert(lines::head_rows(t, all, 0) == none);
    assert(lines::head_rows(t, twice, 0) == none);
    assert(order::lower_bound(none, row, 0) == 0);
    assert(order::with_key(none, row) =~= rows);
    assert(lines::head_rows(t, all, 1) == rows);
    assert(lines::head_rows(t, twice, 1) == rows);
    assert(rows[0] == row);
    assert(order::lower_bound(rows, row, 0) == 0);
    assert(order::lower_bound(rows, row, 1) == 0);
    assert(order::with_key(rows, row) == rows);
    assert(lines::head_rows(t, twice, 2) == rows);
    assert(rows.contains(row));
    assert(rows.index_of(row) == 0);
    assert((lines::insert_plan(t, all, direction)->Some_0).1 =~= seq![
        cursor::spec_caret(lines::insert_caret(t, rows, direction, 0) as usize),
    ]);
}

} // verus!
