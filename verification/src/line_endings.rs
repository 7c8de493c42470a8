//! Texts with one kind of line ending, which commands give back byte for byte.

use crate::comment;
use crate::comment_blocks;
use crate::cursor;
use crate::cursor::EditorSelection;
use crate::edit;
use crate::line_operations as lines;
use crate::line_operations::LineDirection;
use crate::rows;
use crate::text;
use vstd::prelude::*;
use vstd::utf8::*;

verus! {

/// Whether the byte at `i` is part of a line ending only if that is `ending`.
pub open spec fn is_ending_at(t: Seq<u8>, i: int, ending: Seq<u8>) -> bool {
    &&& t[i] == 13 ==> ending.len() == 2 && i + 1 < t.len() && t[i + 1] == 10
    &&& t[i] == 10 && ending.len() == 2 ==> i > 0 && t[i - 1] == 13
}

/// Every line of the text that ends does so with `ending`, and there is no
/// carriage return besides.
pub open spec fn has_ending(t: Seq<u8>, ending: Seq<u8>) -> bool {
    &&& rows::is_ending(ending)
    &&& forall|i: int| 0 <= i < t.len() ==> #[trigger] is_ending_at(t, i, ending)
}

/// What two such texts make one behind the other is such a text.
proof fn lemma_concat(a: Seq<u8>, b: Seq<u8>, ending: Seq<u8>)
    requires
        has_ending(a, ending),
        has_ending(b, ending),
    ensures
        has_ending(a + b, ending),
{
    let t = a + b;
    assert forall|i: int| 0 <= i < t.len() implies #[trigger] is_ending_at(t, i, ending) by {
        if i < a.len() {
            assert(is_ending_at(a, i, ending));
        } else {
            assert(is_ending_at(b, i - a.len(), ending));
        }
    }
}

/// Both parts of such a text are such texts, where it is not cut in an ending.
proof fn lemma_parts(t: Seq<u8>, ending: Seq<u8>, k: int)
    requires
        has_ending(t, ending),
        0 <= k <= t.len(),
        k == 0 || t[k - 1] != 13,
    ensures
        has_ending(t.subrange(0, k), ending),
        has_ending(t.subrange(k, t.len() as int), ending),
{
    let a = t.subrange(0, k);
    let b = t.subrange(k, t.len() as int);
    assert forall|i: int| 0 <= i < a.len() implies #[trigger] is_ending_at(a, i, ending) by {
        assert(is_ending_at(t, i, ending));
    }
    assert forall|i: int| 0 <= i < b.len() implies #[trigger] is_ending_at(b, i, ending) by {
        assert(is_ending_at(t, k + i, ending));
    }
}

/// An ending by itself is such a text, and so is the empty one.
proof fn lemma_ending_alone(ending: Seq<u8>)
    requires
        rows::is_ending(ending),
    ensures
        has_ending(ending, ending),
        has_ending(Seq::empty(), ending),
{
    assert forall|i: int| 0 <= i < ending.len() implies #[trigger] is_ending_at(
        ending,
        i,
        ending,
    ) by {
        assert(ending == seq![10u8] || ending == seq![13u8, 10u8]);
    }
}

/// What a row of such a text reads, and what follows it.
proof fn lemma_row(t: Seq<u8>, ending: Seq<u8>, row: int)
    requires
        has_ending(t, ending),
        0 <= row < text::line_count(t),
    ensures
        ({
            let content = text::content_bytes(t, row);
            let stop = text::line_start(t, row) + content.len();
            &&& 0 <= text::line_start(t, row)
            &&& stop <= t.len()
            &&& t.subrange(text::line_start(t, row), stop) == content
            &&& has_ending(content, ending)
            &&& forall|i: int| 0 <= i < content.len() ==> #[trigger] content[i] != 13
            &&& stop == 0 || t[stop - 1] != 13
            &&& row + 1 < text::line_count(t) ==> text::line_start(t, row + 1) == stop
                + ending.len() && t.subrange(stop, stop + ending.len()) == ending
            &&& row + 1 == text::line_count(t) ==> stop == t.len()
        }),
{
    text::lemma_line_start(t, row);
    text::lemma_line_end(t, row);
    rows::lemma_content(t, row);
    let start = text::line_start(t, row);
    let end = text::line_end(t, row);
    let line = text::line_bytes(t, row);
    let content = text::content_bytes(t, row);
    let stop = start + content.len();
    assert(t.subrange(start, stop) =~= content);
    assert forall|i: int| 0 <= i < content.len() implies #[trigger] content[i] != 13 by {
        assert(content[i] == t[start + i]);
        assert(is_ending_at(t, start + i, ending));
        if t[start + i] == 13 {
            assert(t[start + i + 1] == 10);
            assert(start + i + 1 >= end);
            assert(line[i] == 13);
            assert(line.last() == 13);
        }
    }
    assert forall|i: int| 0 <= i < content.len() implies #[trigger] is_ending_at(
        content,
        i,
        ending,
    ) by {
        assert(content[i] != 13 && content[i] != 10);
    }
    if content.len() > 0 {
        assert(t[stop - 1] == content[content.len() - 1]);
    } else if start > 0 {
        assert(row > 0);
        assert(t[start - 1] == 10);
    }
    if row + 1 < text::line_count(t) {
        assert(is_ending_at(t, end, ending));
        if ending.len() == 2 {
            assert(t[end - 1] == 13);
            if start == end {
                assert(t[start - 1] == 10);
            }
            assert(line.last() == t[end - 1]);
        } else if line.len() > 0 && line.last() == 13 {
            assert(t[end - 1] == 13);
            assert(is_ending_at(t, end - 1, ending));
        }
        assert(t.subrange(stop, stop + ending.len()) =~= ending);
    } else if line.len() > 0 && line.last() == 13 {
        assert(t[end - 1] == 13);
        assert(is_ending_at(t, end - 1, ending));
    }
}

/// The line ending of such a text, where it has one.
proof fn lemma_ending_of(t: Seq<u8>, ending: Seq<u8>)
    requires
        has_ending(t, ending),
        text::line_count(t) > 1,
    ensures
        lines::line_ending(t) == ending,
{
    lemma_row(t, ending, 0);
    text::lemma_line_start(t, 0);
    text::lemma_line_end(t, 0);
    let line = text::line_bytes(t, 0);
    let content = text::content_bytes(t, 0);
    let end = text::line_end(t, 0);
    assert(text::line_start(t, 1) == end + 1);
    assert(line.len() == end - text::line_start(t, 0));
    assert(line.len() + 1 == content.len() + ending.len());
    if ending.len() == 2 {
        assert(line.last() == 13);
    } else if line.len() > 0 && line.last() == 13 {
        assert(content.len() == line.len() - 1);
    }
}

proof fn lemma_plain(t: Seq<u8>, ending: Seq<u8>)
    requires
        has_ending(t, ending),
    ensures
        rows::ends_plainly(t),
{
    assert forall|row: int|
        #![trigger text::content_bytes(t, row)]
        0 <= row < text::line_count(t) && text::content_bytes(t, row).len()
            > 0 implies text::content_bytes(t, row).last() != 13 by {
        lemma_row(t, ending, row);
    }
}

/// The text up to the end of a row is its rows joined.
proof fn lemma_joined_text(t: Seq<u8>, ending: Seq<u8>, k: int)
    requires
        has_ending(t, ending),
        0 <= k < text::line_count(t),
    ensures
        text::line_start(t, k) + text::content_bytes(t, k).len() <= t.len(),
        t.subrange(0, text::line_start(t, k) + text::content_bytes(t, k).len()) == lines::joined(
            t,
            lines::row_range(0, text::line_count(t) - 1),
            ending,
            k + 1,
        ),
    decreases k,
{
    let all = lines::row_range(0, text::line_count(t) - 1);
    let content = text::content_bytes(t, k);
    let stop = text::line_start(t, k) + content.len();
    lemma_row(t, ending, k);
    if k > 0 {
        lemma_joined_text(t, ending, k - 1);
        lemma_row(t, ending, k - 1);
        let before = text::line_start(t, k - 1) + text::content_bytes(t, k - 1).len();
        assert(t.subrange(0, stop) =~= t.subrange(0, before) + t.subrange(
            before,
            before + ending.len(),
        ) + t.subrange(text::line_start(t, k), stop));
    } else {
        assert(text::line_start(t, 0) == 0);
        assert(t.subrange(0, stop) =~= content);
    }
}

proof fn lemma_joined_same(t: Seq<u8>, u: Seq<u8>, all: Seq<int>, ending: Seq<u8>, n: int)
    requires
        0 <= n <= all.len(),
        forall|i: int|
            0 <= i < n ==> text::content_bytes(t, #[trigger] all[i]) == text::content_bytes(
                u,
                all[i],
            ),
    ensures
        lines::joined(t, all, ending, n) == lines::joined(u, all, ending, n),
    decreases n,
{
    if n > 1 {
        lemma_joined_same(t, u, all, ending, n - 1);
        assert(text::content_bytes(t, all[n - 1]) == text::content_bytes(u, all[n - 1]));
    } else if n == 1 {
        assert(text::content_bytes(t, all[0]) == text::content_bytes(u, all[0]));
    }
}

/// Texts with the same rows and the same kind of line ending are the same.
pub proof fn law_rows_make_the_text(t: Seq<u8>, u: Seq<u8>, ending: Seq<u8>)
    requires
        has_ending(t, ending),
        has_ending(u, ending),
        text::line_count(t) == text::line_count(u),
        forall|row: int|
            0 <= row < text::line_count(t) ==> #[trigger] text::content_bytes(t, row)
                == text::content_bytes(u, row),
    ensures
        t == u,
{
    text::lemma_newlines_bound(t, t.len() as int);
    let last = text::line_count(t) - 1;
    let all = lines::row_range(0, last);
    lemma_row(t, ending, last);
    lemma_row(u, ending, last);
    lemma_joined_text(t, ending, last);
    lemma_joined_text(u, ending, last);
    assert forall|i: int| 0 <= i < last + 1 implies text::content_bytes(t, #[trigger] all[i])
        == text::content_bytes(u, all[i]) by {
        assert(all[i] == i);
    }
    lemma_joined_same(t, u, all, ending, last + 1);
    assert(t.subrange(0, t.len() as int) =~= t);
    assert(u.subrange(0, u.len() as int) =~= u);
}

/// Rows of such a text joined by its ending make such a text.
proof fn lemma_joined_ending(t: Seq<u8>, all: Seq<int>, ending: Seq<u8>, n: int)
    requires
        has_ending(t, ending),
        0 <= n <= all.len(),
        forall|i: int| 0 <= i < n ==> 0 <= #[trigger] all[i] < text::line_count(t),
    ensures
        has_ending(lines::joined(t, all, ending, n), ending),
    decreases n,
{
    lemma_ending_alone(ending);
    if n > 0 {
        let content = text::content_bytes(t, all[n - 1]);
        lemma_row(t, ending, all[n - 1]);
        if n > 1 {
            let before = lines::joined(t, all, ending, n - 1);
            lemma_joined_ending(t, all, ending, n - 1);
            lemma_concat(before, ending, ending);
            lemma_concat(before + ending, content, ending);
        }
    }
}

/// An edit that is not made in an ending and writes such a text keeps the kind of
/// line ending.
proof fn lemma_replaced(t: Seq<u8>, e: (int, int, Seq<u8>), ending: Seq<u8>)
    requires
        has_ending(t, ending),
        has_ending(e.2, ending),
        0 <= e.0 <= e.1 <= t.len(),
        e.0 == 0 || t[e.0 - 1] != 13,
        e.1 == 0 || t[e.1 - 1] != 13,
    ensures
        has_ending(edit::replaced(t, e), ending),
{
    lemma_parts(t, ending, e.0);
    lemma_parts(t, ending, e.1);
    lemma_concat(t.subrange(0, e.0), e.2, ending);
    lemma_concat(t.subrange(0, e.0) + e.2, t.subrange(e.1, t.len() as int), ending);
}

/// Moving a block of rows keeps the kind of line ending.
proof fn lemma_moved_ending(
    t: Seq<u8>,
    ending: Seq<u8>,
    block: (int, int),
    direction: LineDirection,
)
    requires
        has_ending(t, ending),
        0 <= block.0 <= block.1 < text::line_count(t),
        lines::is_movable(t, block, direction),
    ensures
        has_ending(rows::moved(t, block, direction), ending),
{
    lemma_ending_of(t, ending);
    lemma_ending_alone(ending);
    let rewrite = lines::move_rewrite(t, block, direction);
    let order = lines::move_order(block, direction);
    let (top, bottom) = rows::moved_span(block, direction);
    assert forall|i: int| 0 <= i < order.len() implies 0 <= #[trigger] order[i] < text::line_count(
        t,
    ) by {}
    lemma_joined_ending(t, order, ending, order.len() as int);
    lemma_concat(lines::joined(t, order, ending, order.len() as int), ending, ending);
    text::lemma_line_start(t, top);
    text::lemma_line_start(t, bottom + 1);
    text::lemma_line_start_monotonic(t, top, bottom + 1);
    if rewrite.end == t.len() && t.len() > 0 {
        assert(is_ending_at(t, t.len() - 1, ending));
    }
    lemma_replaced(t, (rewrite.start, rewrite.end, rewrite.text), ending);
}

/// Moving a block of rows and then moving it back gives the text back, where its
/// lines all end alike.
pub proof fn law_moving_back_restores(
    t: Seq<u8>,
    ending: Seq<u8>,
    block: (int, int),
    direction: LineDirection,
)
    requires
        has_ending(t, ending),
        0 <= block.0 <= block.1 < text::line_count(t),
        lines::is_movable(t, block, direction),
    ensures
        ({
            let once = rows::moved(t, block, direction);
            let (there, back) = if direction is Up {
                ((block.0 - 1, block.1 - 1), LineDirection::Down)
            } else {
                ((block.0 + 1, block.1 + 1), LineDirection::Up)
            };
            &&& has_ending(once, ending)
            &&& lines::is_movable(once, there, back)
            &&& rows::moved(once, there, back) == t
        }),
{
    let once = rows::moved(t, block, direction);
    let (there, back) = if direction is Up {
        ((block.0 - 1, block.1 - 1), LineDirection::Down)
    } else {
        ((block.0 + 1, block.1 + 1), LineDirection::Up)
    };
    lemma_plain(t, ending);
    rows::law_moved_rows(t, block, direction);
    lemma_moved_ending(t, ending, block, direction);
    rows::law_moving_back(t, block, direction, 0);
    lemma_moved_ending(once, ending, there, back);
    let twice = rows::moved(once, there, back);
    assert forall|row: int| 0 <= row < text::line_count(twice) implies #[trigger] text::content_bytes(
        twice,
        row,
    ) == text::content_bytes(t, row) by {
        rows::law_moving_back(t, block, direction, row);
    }
    law_rows_make_the_text(twice, t, ending);
}

/// Writing blocks of rows anew in some order keeps the kind of line ending.
proof fn lemma_ordered_ending(
    t: Seq<u8>,
    cur: Seq<u8>,
    ending: Seq<u8>,
    blocks: Seq<(int, int)>,
    orders: Seq<Seq<int>>,
    m: int,
)
    requires
        has_ending(t, ending),
        has_ending(cur, ending),
        rows::are_blocks(t, blocks),
        rows::are_orders(t, blocks, orders),
        0 <= m <= blocks.len(),
        m > 0 ==> {
            let stop = lines::block_range(t, blocks[m - 1]).1;
            &&& stop <= cur.len()
            &&& forall|i: int| 0 <= i < stop ==> #[trigger] cur[i] == t[i]
        },
    ensures
        has_ending(
            edit::applied(cur, rows::order_edits(t, blocks, orders).take(m)),
            ending,
        ),
    decreases m,
{
    let edits = rows::order_edits(t, blocks, orders);
    if m > 0 {
        let block = blocks[m - 1];
        let order = orders[m - 1];
        let e = edits[m - 1];
        assert(order.len() == block.1 - block.0 + 1);
        lines::lemma_block_range(t, block);
        lemma_row(t, ending, block.1);
        text::lemma_line_start(t, block.0);
        if order.len() > 1 {
            lemma_ending_of(t, ending);
        }
        assert forall|i: int| 0 <= i < order.len() implies 0 <= #[trigger] order[i]
            < text::line_count(t) by {
            assert(0 <= orders[m - 1][i]);
        }
        lemma_joined_ending(t, order, ending, order.len() as int);
        if order.len() == 1 {
            assert(lines::joined(t, order, lines::line_ending(t), 1) == lines::joined(
                t,
                order,
                ending,
                1,
            ));
        }
        if e.0 > 0 {
            assert(cur[e.0 - 1] == t[e.0 - 1]);
        }
        if e.1 > 0 {
            assert(cur[e.1 - 1] == t[e.1 - 1]);
        }
        lemma_replaced(cur, e, ending);
        let next = edit::replaced(cur, e);
        if m > 1 {
            let before = blocks[m - 2];
            assert(before.1 < block.0);
            lines::lemma_block_range(t, before);
            lemma_row(t, ending, before.1);
            text::lemma_line_end(t, before.1);
            text::lemma_line_start_monotonic(t, before.1 + 1, block.0);
            let stop = lines::block_range(t, before).1;
            assert(stop <= e.0);
            assert forall|i: int| 0 <= i < stop implies #[trigger] next[i] == t[i] by {
                assert(cur[i] == t[i]);
            }
        }
        lemma_ordered_ending(t, next, ending, blocks, orders, m - 1);
        assert(edits.take(m).drop_last() =~= edits.take(m - 1));
        assert(edits.take(m).last() == e);
    } else {
        assert(edits.take(0).len() == 0);
    }
}

/// Reversing blocks of rows keeps the kind of line ending.
proof fn lemma_reversed_ending(t: Seq<u8>, ending: Seq<u8>, blocks: Seq<(int, int)>)
    requires
        has_ending(t, ending),
        rows::are_blocks(t, blocks),
    ensures
        has_ending(edit::applied(t, lines::reverse_edits(t, blocks)), ending),
{
    let orders = rows::reverse_orders(blocks);
    assert forall|i: int, k: int|
        #![trigger orders[i][k]]
        0 <= i < blocks.len() && 0 <= k < orders[i].len() implies 0 <= orders[i][k]
        < text::line_count(t) by {
        assert(blocks[i].0 <= blocks[i].1);
    }
    assert forall|i: int| #![trigger orders[i]] 0 <= i < blocks.len() implies orders[i].len()
        == blocks[i].1 - blocks[i].0 + 1 by {
        assert(blocks[i].0 <= blocks[i].1);
    }
    let m = blocks.len() as int;
    if m > 0 {
        lines::lemma_block_range(t, blocks[m - 1]);
    }
    lemma_ordered_ending(t, t, ending, blocks, orders, m);
    let edits = rows::order_edits(t, blocks, orders);
    assert(edits.take(m) =~= edits);
    assert(edits =~= lines::reverse_edits(t, blocks));
}

/// Reversing the same blocks of rows twice gives the text back, where its lines
/// all end alike.
pub proof fn law_reversing_twice_restores(
    t: Seq<u8>,
    ending: Seq<u8>,
    blocks: Seq<(int, int)>,
)
    requires
        has_ending(t, ending),
        rows::are_blocks(t, blocks),
    ensures
        ({
            let once = edit::applied(t, lines::reverse_edits(t, blocks));
            &&& has_ending(once, ending)
            &&& edit::applied(once, lines::reverse_edits(once, blocks)) == t
        }),
{
    let once = edit::applied(t, lines::reverse_edits(t, blocks));
    let twice = edit::applied(once, lines::reverse_edits(once, blocks));
    text::lemma_newlines_bound(t, t.len() as int);
    lemma_plain(t, ending);
    rows::law_reversed_rows(t, blocks);
    lemma_reversed_ending(t, ending, blocks);
    lemma_reversed_ending(once, ending, blocks);
    rows::law_reversing_twice(t, blocks, 0);
    assert forall|row: int| 0 <= row < text::line_count(twice) implies #[trigger] text::content_bytes(
        twice,
        row,
    ) == text::content_bytes(t, row) by {
        rows::law_reversing_twice(t, blocks, row);
    }
    law_rows_make_the_text(twice, t, ending);
}

/// The rows that reversing a whole document turns around.
pub open spec fn document_block(t: Seq<u8>) -> (int, int) {
    let last = text::line_count(t) - 1;
    if last > 0 && text::content_bytes(t, last).len() == 0 {
        (0, last - 1)
    } else {
        (0, last)
    }
}

/// What reversing plans for one selection within a row.
proof fn lemma_document_reversed(t: Seq<u8>, selection: EditorSelection)
    requires
        comment::is_valid_selection(t, selection),
        lines::expands_to_document(t, seq![selection]),
        text::line_count(t) <= lines::MAX_REORDER_LINES,
    ensures
        rows::are_blocks(t, seq![document_block(t)]),
        lines::reverse_plan(t, seq![selection]) is Some,
        (lines::reverse_plan(t, seq![selection])->Some_0).0 == lines::reverse_edits(
            t,
            seq![document_block(t)],
        ),
{
    text::lemma_newlines_bound(t, t.len() as int);
    let all = seq![selection];
    let blocks = lines::reverse_blocks(t, all);
    assert(blocks =~= seq![document_block(t)]);
    reveal_with_fuel(lines::rows_total, 2);
    let edits = lines::reverse_edits(t, blocks);
    comment_blocks::lemma_single_order(edit::edit_keys(edits));
    assert(edit::sorted_edits(edits) =~= edits);
}

/// Reversing a whole document twice, at any two places, gives it back, where its
/// lines all end alike: one that ends in a line ending, one of a single line, and
/// any other whose first line is not empty.
pub proof fn law_reversing_a_document_twice(
    t: Seq<u8>,
    ending: Seq<u8>,
    a: EditorSelection,
    b: EditorSelection,
)
    requires
        has_ending(t, ending),
        text::line_count(t) <= lines::MAX_REORDER_LINES,
        text::line_count(t) == 1 || text::content_bytes(t, text::line_count(t) - 1).len() == 0
            || text::content_bytes(t, 0).len() > 0,
        comment::is_valid_selection(t, a),
        lines::expands_to_document(t, seq![a]),
    ensures
        lines::reverse_plan(t, seq![a]) is Some,
        ({
            let once = edit::applied(t, (lines::reverse_plan(t, seq![a])->Some_0).0);
            let again = lines::reverse_plan(once, seq![b]);
            comment::is_valid_selection(once, b) && lines::expands_to_document(once, seq![b])
                ==> again is Some && edit::applied(once, (again->Some_0).0) == t
        }),
{
    let block = document_block(t);
    let blocks = seq![block];
    let last = text::line_count(t) - 1;
    lemma_document_reversed(t, a);
    lemma_plain(t, ending);
    rows::law_reversed_rows(t, blocks);
    law_reversing_twice_restores(t, ending, blocks);
    let once = edit::applied(t, lines::reverse_edits(t, blocks));
    assert(blocks[0] == block);
    if block.1 == last {
        assert(text::content_bytes(once, last) == text::content_bytes(t, 0));
    } else {
        assert(text::content_bytes(once, last) == text::content_bytes(t, last));
    }
    assert(document_block(once) == block);
    if comment::is_valid_selection(once, b) && lines::expands_to_document(once, seq![b]) {
        lemma_document_reversed(once, b);
    }
}

/// Whether `o` is a place for a caret: between two characters, and not in a line
/// ending.
pub open spec fn is_caret_place(t: Seq<u8>, o: int) -> bool {
    &&& 0 <= o <= t.len()
    &&& text::is_boundary(t, o)
    &&& text::column_at(t, o) <= text::content_bytes(t, text::row_at(t, o)).len()
}

/// The row beside a row.
pub open spec fn row_beside(row: int, direction: LineDirection) -> int {
    if direction is Up {
        row - 1
    } else {
        row + 1
    }
}

/// Where the rows of a move start, and how long the text is after it.
proof fn lemma_moved_starts(
    t: Seq<u8>,
    ending: Seq<u8>,
    row: int,
    direction: LineDirection,
)
    requires
        has_ending(t, ending),
        0 <= row < text::line_count(t),
        lines::is_movable(t, (row, row), direction),
    ensures
        ({
            let once = rows::moved(t, (row, row), direction);
            let rewrite = lines::move_rewrite(t, (row, row), direction);
            &&& once.len() == t.len()
            &&& text::line_start(once, row_beside(row, direction)) == rewrite.start
                + rewrite.starts[0]
        }),
{
    let block = (row, row);
    let once = rows::moved(t, block, direction);
    let rewrite = lines::move_rewrite(t, block, direction);
    let order = lines::move_order(block, direction);
    let (top, bottom) = rows::moved_span(block, direction);
    lemma_ending_of(t, ending);
    lemma_plain(t, ending);
    lemma_moved_ending(t, ending, block, direction);
    rows::law_moved_rows(t, block, direction);
    lemma_row(t, ending, top);
    lemma_row(t, ending, bottom);
    reveal_with_fuel(lines::joined, 3);
    assert(order.len() == 2);
    let start = rewrite.start;
    text::lemma_line_start(t, top);
    assert forall|i: int| 0 <= i < start implies once[i] == t[i] by {}
    rows::lemma_newlines_same(once, t, start);
    if start > 0 {
        assert(once[start - 1] == t[start - 1]);
        assert(top > 0) by {
            if top == 0 {
                assert(text::line_start(t, 0) == 0);
            }
        }
    }
    rows::lemma_row_starts(once, top, start);
    lemma_row(once, ending, top);
    assert(text::content_bytes(once, top) == text::content_bytes(t, order[0]));
}

/// A place for a caret in a row is one in any row that reads the same.
proof fn lemma_same_place(
    t: Seq<u8>,
    u: Seq<u8>,
    ending: Seq<u8>,
    row: int,
    there: int,
    column: int,
)
    requires
        has_ending(t, ending),
        has_ending(u, ending),
        0 <= row < text::line_count(t),
        0 <= there < text::line_count(u),
        text::content_bytes(u, there) == text::content_bytes(t, row),
        0 <= column <= text::content_bytes(t, row).len(),
        ({
            let place = text::line_start(t, row) + column;
            place < t.len() ==> !is_continuation_byte(t[place])
        }),
    ensures
        ({
            let at = text::line_start(u, there) + column;
            &&& is_caret_place(u, at)
            &&& at < u.len() ==> !is_continuation_byte(u[at])
            &&& text::row_at(u, at) == there
            &&& text::column_at(u, at) == column
        }),
{
    let content = text::content_bytes(t, row);
    let at = text::line_start(u, there) + column;
    lemma_row(u, ending, there);
    lemma_row(t, ending, row);
    if column < content.len() {
        let from = text::line_start(t, row);
        let to = text::line_start(u, there);
        assert(t.subrange(from, from + content.len())[column] == t[from + column]);
        assert(u.subrange(to, to + content.len())[column] == u[at]);
    } else if at < u.len() {
        assert(u.subrange(at, at + ending.len())[0] == u[at]);
    }
    comment_blocks::lemma_row_of(u, there, column);
    text::lemma_floor_boundary(u, at);
}

/// Where the place of a caret in a row comes to lie when the row moves.
proof fn lemma_moved_place(
    t: Seq<u8>,
    ending: Seq<u8>,
    row: int,
    column: int,
    direction: LineDirection,
)
    requires
        has_ending(t, ending),
        0 <= row < text::line_count(t),
        lines::is_movable(t, (row, row), direction),
        0 <= column <= text::content_bytes(t, row).len(),
        ({
            let place = text::line_start(t, row) + column;
            place < t.len() ==> !is_continuation_byte(t[place])
        }),
    ensures
        ({
            let once = rows::moved(t, (row, row), direction);
            let rewrite = lines::move_rewrite(t, (row, row), direction);
            let at = rewrite.start + rewrite.starts[0] + column;
            &&& once.len() == t.len()
            &&& is_caret_place(once, at)
            &&& at < once.len() ==> !is_continuation_byte(once[at])
            &&& text::row_at(once, at) == row_beside(row, direction)
            &&& text::column_at(once, at) == column
        }),
{
    let block = (row, row);
    let there = row_beside(row, direction);
    lemma_moved_starts(t, ending, row, direction);
    lemma_moved_ending(t, ending, block, direction);
    lemma_moved_row(t, ending, row, direction);
    lemma_same_place(t, rows::moved(t, block, direction), ending, row, there, column);
}

proof fn lemma_moved_row(t: Seq<u8>, ending: Seq<u8>, row: int, direction: LineDirection)
    requires
        has_ending(t, ending),
        0 <= row < text::line_count(t),
        lines::is_movable(t, (row, row), direction),
    ensures
        ({
            let once = rows::moved(t, (row, row), direction);
            &&& 0 <= row_beside(row, direction) < text::line_count(once)
            &&& text::content_bytes(once, row_beside(row, direction)) == text::content_bytes(
                t,
                row,
            )
        }),
{
    let block = (row, row);
    let there = row_beside(row, direction);
    lemma_plain(t, ending);
    rows::law_moved_rows(t, block, direction);
    let order = lines::move_order(block, direction);
    let top = rows::moved_span(block, direction).0;
    assert(order[there - top] == row);
    assert(text::content_bytes(rows::moved(t, block, direction), there) == text::content_bytes(
        t,
        order[there - top],
    ));
}

/// What moving plans for one caret.
proof fn lemma_caret_plan(t: Seq<u8>, o: usize, direction: LineDirection)
    requires
        o <= t.len(),
        ({
            let row = text::row_at(t, o as int);
            lines::is_movable(t, (row, row), direction)
        }),
    ensures
        ({
            let row = text::row_at(t, o as int);
            let rewrite = lines::move_rewrite(t, (row, row), direction);
            let plan = lines::move_plan(t, seq![cursor::spec_caret(o)], direction);
            let content = text::content_bytes(t, row);
            let column = edit::min_int(text::column_at(t, o as int), content.len() as int);
            &&& plan is Some
            &&& edit::applied(t, (plan->Some_0).0) == rows::moved(t, (row, row), direction)
            &&& (plan->Some_0).1 == seq![
                cursor::spec_caret((rewrite.start + rewrite.starts[0] + column) as usize),
            ]
        }),
{
    let row = text::row_at(t, o as int);
    let block = (row, row);
    let rewrite = lines::move_rewrite(t, block, direction);
    let caret = cursor::spec_caret(o);
    let all = seq![caret];
    let blocks = lines::block_rows(t, all);
    assert(blocks =~= seq![block]);
    comment_blocks::lemma_single_order(blocks);
    assert(lines::sorted_blocks(blocks) =~= blocks);
    reveal_with_fuel(lines::merged, 2);
    assert(lines::rows_known(t, all, 1));
    let known = lines::line_blocks(t, all, true)->Some_0;
    assert(known =~= seq![block]);
    reveal_with_fuel(lines::move_rewrites, 2);
    let rewrites = lines::move_rewrites(t, known, direction, 1);
    assert(rewrites =~= seq![rewrite]);
    let edits = lines::rewrite_edits(rewrites);
    assert(edits =~= seq![(rewrite.start, rewrite.end, rewrite.text)]);
    reveal_with_fuel(edit::applied, 2);
    assert(edits.drop_last() =~= Seq::empty());
    assert(lines::rewrite_of(rewrites, row, 0) == Some(0int));
    assert(edit::growth(edits, 0) == 0);
    let after = lines::rewritten_selection(t, caret, rewrites);
    assert((lines::move_plan(t, all, direction)->Some_0).1 =~= seq![after]);
}

/// A caret goes with its row and stays in its column.
proof fn lemma_caret_moves(t: Seq<u8>, ending: Seq<u8>, o: usize, direction: LineDirection) -> (at:
    usize)
    requires
        has_ending(t, ending),
        t.len() <= usize::MAX,
        is_caret_place(t, o as int),
        o < t.len() ==> !is_continuation_byte(t[o as int]),
        ({
            let row = text::row_at(t, o as int);
            lines::is_movable(t, (row, row), direction)
        }),
    ensures
        ({
            let row = text::row_at(t, o as int);
            let once = rows::moved(t, (row, row), direction);
            let plan = lines::move_plan(t, seq![cursor::spec_caret(o)], direction);
            &&& plan is Some
            &&& edit::applied(t, (plan->Some_0).0) == once
            &&& (plan->Some_0).1 == seq![cursor::spec_caret(at)]
            &&& once.len() == t.len()
            &&& is_caret_place(once, at as int)
            &&& at < once.len() ==> !is_continuation_byte(once[at as int])
            &&& text::row_at(once, at as int) == row_beside(row, direction)
            &&& text::column_at(once, at as int) == text::column_at(t, o as int)
        }),
{
    let row = text::row_at(t, o as int);
    let column = text::column_at(t, o as int);
    let rewrite = lines::move_rewrite(t, (row, row), direction);
    text::lemma_row_at(t, o as int);
    text::lemma_floor_boundary(t, o as int);
    lemma_caret_plan(t, o, direction);
    lemma_moved_place(t, ending, row, column, direction);
    (rewrite.start + rewrite.starts[0] + column) as usize
}

/// Moving the row of a caret up and then down again, or down and then up, gives
/// the text and the caret back, where the lines of the text all end alike.
pub proof fn law_moving_a_caret_back(
    t: Seq<u8>,
    ending: Seq<u8>,
    o: usize,
    direction: LineDirection,
)
    requires
        valid_utf8(t),
        has_ending(t, ending),
        t.len() <= usize::MAX,
        is_caret_place(t, o as int),
        ({
            let row = text::row_at(t, o as int);
            lines::is_movable(t, (row, row), direction)
        }),
    ensures
        lines::move_plan(t, seq![cursor::spec_caret(o)], direction) is Some,
        ({
            let (edits, selections) = lines::move_plan(
                t,
                seq![cursor::spec_caret(o)],
                direction,
            )->Some_0;
            let once = edit::applied(t, edits);
            let back = if direction is Up {
                LineDirection::Down
            } else {
                LineDirection::Up
            };
            let again = lines::move_plan(once, selections, back);
            &&& again is Some
            &&& edit::applied(once, (again->Some_0).0) == t
            &&& (again->Some_0).1 == seq![cursor::spec_caret(o)]
        }),
{
    let row = text::row_at(t, o as int);
    let block = (row, row);
    let once = rows::moved(t, block, direction);
    let back = if direction is Up {
        LineDirection::Down
    } else {
        LineDirection::Up
    };
    text::lemma_row_at(t, o as int);
    text::lemma_floor_boundary(t, o as int);
    if o == 0 && t.len() > 0 {
        assert(valid_first_scalar(t));
    }
    let at = lemma_caret_moves(t, ending, o, direction);
    law_moving_back_restores(t, ending, block, direction);
    let end = lemma_caret_moves(once, ending, at, back);
    text::lemma_floor_boundary(t, end as int);
    assert(end == o);
}

} // verus!
