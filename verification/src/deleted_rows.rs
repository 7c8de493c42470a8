//! What deleting several blocks of rows leaves.

use crate::edit;
use crate::line_operations as lines;
use crate::rows;
use crate::text;
use vstd::prelude::*;

verus! {

/// Number of rows in the blocks from the `m`-th on.
pub open spec fn rows_from(blocks: Seq<(int, int)>, m: int) -> int
    decreases blocks.len() - m,
{
    if m < 0 || m >= blocks.len() {
        0
    } else {
        blocks[m].1 - blocks[m].0 + 1 + rows_from(blocks, m + 1)
    }
}

/// The row that comes to stand at `row` once the blocks from the `m`-th on are
/// deleted.
pub open spec fn survivor(blocks: Seq<(int, int)>, row: int, m: int) -> int
    decreases blocks.len() - m,
{
    if m < 0 || m >= blocks.len() || row < blocks[m].0 {
        row
    } else {
        survivor(blocks, row + (blocks[m].1 - blocks[m].0 + 1), m + 1)
    }
}

/// The blocks from the `m`-th on fit behind the rows before them.
proof fn lemma_rows_from(blocks: Seq<(int, int)>, count: int, m: int)
    requires
        0 <= m < blocks.len(),
        lines::blocks_apart(blocks, 1, count),
    ensures
        0 <= rows_from(blocks, m) <= count - blocks[m].0,
    decreases blocks.len() - m,
{
    assert(0 <= blocks[m].0 <= blocks[m].1 < count);
    if m + 1 < blocks.len() {
        lemma_rows_from(blocks, count, m + 1);
        assert(blocks[m].1 + 1 < blocks[m + 1].0);
    } else {
        assert(rows_from(blocks, m + 1) == 0);
    }
}

/// The row that a row comes from is one of the text.
proof fn lemma_survivor(blocks: Seq<(int, int)>, count: int, row: int, m: int)
    requires
        0 <= m <= blocks.len(),
        lines::blocks_apart(blocks, 1, count),
        0 <= row < count - rows_from(blocks, m),
    ensures
        row <= survivor(blocks, row, m) < count,
    decreases blocks.len() - m,
{
    if m < blocks.len() {
        assert(0 <= blocks[m].0 <= blocks[m].1 < count);
        if row >= blocks[m].0 {
            lemma_survivor(blocks, count, row + (blocks[m].1 - blocks[m].0 + 1), m + 1);
        } else {
            lemma_rows_from(blocks, count, m);
        }
    }
}

/// The first row that is not known to be where it was.
spec fn first_touched(t: Seq<u8>, blocks: Seq<(int, int)>, m: int) -> int {
    if 0 <= m < blocks.len() {
        blocks[m].0
    } else {
        text::line_count(t)
    }
}

/// The blocks from the `m`-th on are deleted.
spec fn is_partly_deleted(t: Seq<u8>, cur: Seq<u8>, blocks: Seq<(int, int)>, m: int) -> bool {
    &&& text::line_count(cur) == text::line_count(t) - rows_from(blocks, m)
    &&& m == blocks.len() ==> cur == t
    &&& forall|row: int|
        #![trigger text::line_start(cur, row)]
        0 <= row < first_touched(t, blocks, m) ==> text::line_start(cur, row) == text::line_start(
            t,
            row,
        )
    &&& forall|row: int|
        #![trigger text::content_bytes(cur, row)]
        0 <= row < text::line_count(cur) ==> text::content_bytes(cur, row) == text::content_bytes(
            t,
            survivor(blocks, row, m),
        )
}

/// Rows before a deleted block start where they did.
proof fn lemma_starts_before(t: Seq<u8>, block: (int, int), row: int)
    requires
        0 <= block.0 <= block.1 < text::line_count(t),
        0 <= row < block.0,
    ensures
        ({
            let range = lines::delete_range(t, block);
            let after = edit::replaced(t, (range.0, range.1, Seq::empty()));
            text::line_start(after, row) == text::line_start(t, row)
        }),
{
    let range = lines::delete_range(t, block);
    let after = edit::replaced(t, (range.0, range.1, Seq::empty()));
    let s = text::line_start(t, row);
    lines::lemma_delete_range(t, block);
    text::lemma_line_start(t, row);
    text::lemma_line_start_monotonic(t, row, block.0 - 1);
    assert(forall|i: int| 0 <= i < range.0 ==> after[i] == t[i]);
    rows::lemma_newlines_same(t, after, s);
    rows::lemma_row_starts(after, row, s);
}

/// One more block is deleted.
proof fn lemma_delete_step(t: Seq<u8>, cur: Seq<u8>, blocks: Seq<(int, int)>, m: int)
    requires
        lines::blocks_apart(blocks, 1, text::line_count(t)),
        rows_from(blocks, 0) < text::line_count(t),
        rows::ends_plainly(t),
        0 < m <= blocks.len(),
        is_partly_deleted(t, cur, blocks, m),
    ensures
        ({
            let range = lines::delete_range(t, blocks[m - 1]);
            is_partly_deleted(
                t,
                edit::replaced(cur, (range.0, range.1, Seq::empty())),
                blocks,
                m - 1,
            )
        }),
{
    let block = blocks[m - 1];
    let (f, l) = block;
    let size = l - f + 1;
    let count = text::line_count(t);
    assert(0 <= f <= l < count);
    lemma_total(blocks, count, m - 1);
    if m < blocks.len() {
        lemma_rows_from(blocks, count, m);
        assert(blocks[m - 1].1 + 1 < blocks[m].0);
        assert(text::line_start(cur, f) == text::line_start(t, f));
        assert(text::line_start(cur, l + 1) == text::line_start(t, l + 1));
    } else {
        assert(rows_from(blocks, m) == 0);
    }
    assert(lines::delete_range(cur, block) == lines::delete_range(t, block));
    assert forall|row: int|
        #![trigger text::content_bytes(cur, row)]
        0 <= row < text::line_count(cur) && text::content_bytes(cur, row).len() > 0 implies text::content_bytes(
        cur,
        row,
    ).last() != 13 by {
        lemma_survivor(blocks, count, row, m);
        assert(text::content_bytes(cur, row) == text::content_bytes(
            t,
            survivor(blocks, row, m),
        ));
    }
    rows::law_deleted_rows(cur, block);
    let range = lines::delete_range(t, block);
    let next = edit::replaced(cur, (range.0, range.1, Seq::empty()));
    assert forall|row: int|
        #![trigger text::line_start(next, row)]
        0 <= row < f implies text::line_start(next, row) == text::line_start(t, row) by {
        lemma_starts_before(cur, block, row);
        assert(text::line_start(cur, row) == text::line_start(t, row));
    }
    assert forall|row: int|
        #![trigger text::content_bytes(next, row)]
        0 <= row < text::line_count(next) implies text::content_bytes(next, row)
        == text::content_bytes(t, survivor(blocks, row, m - 1)) by {
        if row < f {
            assert(text::content_bytes(next, row) == text::content_bytes(cur, row));
            assert(m < blocks.len() ==> row < blocks[m].0);
            assert(survivor(blocks, row, m) == row);
        } else {
            assert(text::content_bytes(next, row) == text::content_bytes(cur, row + size));
            assert(survivor(blocks, row, m - 1) == survivor(blocks, row + size, m));
        }
    }
}

/// A block goes only where a row is left.
proof fn lemma_total(blocks: Seq<(int, int)>, count: int, m: int)
    requires
        0 <= m < blocks.len(),
        lines::blocks_apart(blocks, 1, count),
        rows_from(blocks, 0) < count,
    ensures
        rows_from(blocks, m) < count,
        blocks[m].0 > 0 || blocks[m].1 + 1 < count - rows_from(blocks, m + 1),
    decreases m,
{
    lemma_rows_from(blocks, count, m);
    assert(0 <= blocks[m].0 <= blocks[m].1 < count);
    if m > 0 {
        assert(blocks[m - 1].1 + 1 < blocks[m].0);
        assert(0 <= blocks[m - 1].0 <= blocks[m - 1].1);
    }
}

/// Deleting the first `m` blocks, from the last to the first, leaves what is to
/// be left.
proof fn lemma_deleted(t: Seq<u8>, cur: Seq<u8>, blocks: Seq<(int, int)>, m: int)
    requires
        lines::blocks_apart(blocks, 1, text::line_count(t)),
        rows_from(blocks, 0) < text::line_count(t),
        rows::ends_plainly(t),
        0 <= m <= blocks.len(),
        is_partly_deleted(t, cur, blocks, m),
    ensures
        is_partly_deleted(t, edit::applied(cur, lines::delete_edits(t, blocks, m)), blocks, 0),
    decreases m,
{
    let edits = lines::delete_edits(t, blocks, m);
    if m > 0 {
        let range = lines::delete_range(t, blocks[m - 1]);
        let before = lines::delete_edits(t, blocks, m - 1);
        let count = text::line_count(t);
        assert(0 <= blocks[m - 1].0 <= blocks[m - 1].1 < count);
        lemma_total(blocks, count, m - 1);
        if m < blocks.len() {
            lemma_rows_from(blocks, count, m);
        } else {
            assert(rows_from(blocks, m) == 0);
        }
        lemma_some_text(t, blocks[m - 1]);
        lemma_delete_step(t, cur, blocks, m);
        let next = edit::replaced(cur, (range.0, range.1, Seq::empty()));
        lemma_deleted(t, next, blocks, m - 1);
        assert(edits.last() == (range.0, range.1, Seq::<u8>::empty()));
        assert(edits.drop_last() =~= before);
    }
}

/// A block that is not all of the text reads something, at least a line ending.
proof fn lemma_some_text(t: Seq<u8>, block: (int, int))
    requires
        0 <= block.0 <= block.1 < text::line_count(t),
        block.0 > 0 || block.1 + 1 < text::line_count(t),
    ensures
        lines::delete_range(t, block).0 < lines::delete_range(t, block).1,
{
    text::lemma_line_start(t, block.0);
    text::lemma_line_start_monotonic(t, block.0, block.1);
    text::lemma_line_end(t, block.1);
}

/// Deleting blocks of rows that do not touch, and that are not all rows, leaves
/// the other rows in their order. What deleting all of them leaves is empty.
pub proof fn law_deleted_blocks(t: Seq<u8>, blocks: Seq<(int, int)>)
    requires
        lines::blocks_apart(blocks, 1, text::line_count(t)),
        rows::ends_plainly(t),
    ensures
        ({
            let after = edit::applied(t, lines::delete_edits(t, blocks, blocks.len() as int));
            if rows_from(blocks, 0) < text::line_count(t) {
                &&& text::line_count(after) == text::line_count(t) - rows_from(blocks, 0)
                &&& forall|row: int|
                    #![trigger text::content_bytes(after, row)]
                    0 <= row < text::line_count(after) ==> text::content_bytes(after, row)
                        == text::content_bytes(t, survivor(blocks, row, 0))
            } else {
                after.len() == 0
            }
        }),
{
    let n = blocks.len() as int;
    let count = text::line_count(t);
    if rows_from(blocks, 0) < count {
        assert(is_partly_deleted(t, t, blocks, n));
        lemma_deleted(t, t, blocks, n);
    } else if n > 0 {
        lemma_rows_from(blocks, count, 0);
        if n > 1 {
            lemma_rows_from(blocks, count, 1);
            assert(blocks[0].1 + 1 < blocks[1].0);
        }
        let range = lines::delete_range(t, blocks[0]);
        text::lemma_line_start(t, 0);
        reveal_with_fuel(lines::delete_edits, 2);
        reveal_with_fuel(edit::applied, 2);
        assert(rows_from(blocks, 1) == 0);
        assert(blocks[0] == (0int, count - 1));
        assert(range == (0int, t.len() as int));
        let edits = lines::delete_edits(t, blocks, 1);
        if t.len() > 0 {
            assert(edits =~= seq![(0int, t.len() as int, Seq::<u8>::empty())]);
            assert(edits.drop_last() =~= Seq::empty());
        }
    } else {
        text::lemma_newlines_monotonic(t, 0, t.len() as int);
    }
}

} // verus!
