//! Operations on whole lines: delete, insert, move, copy, duplicate, reverse,
//! sort, deduplicate and join.

use crate::bytes;
use crate::collation;
use crate::comment;
use crate::comment::RowSpan;
use crate::cursor;
use crate::cursor::EditorSelection;
use crate::edit;
use crate::edit::EditPlan;
use crate::order;
use crate::rope;
use crate::text;
use crate::text::Document;
use icu_collator::Collator;
use ropey::Rope;
use std::ops::Range;
use vstd::prelude::*;
use vstd::string::*;
use vstd::utf8::*;

verus! {

/// Bound on the lines that one join covers.
pub const MAX_JOIN_LINES: usize = 100_000;

/// Bound on the lines that one reordering covers.
pub const MAX_REORDER_LINES: usize = 100_000;

#[derive(Debug, Clone, Copy, PartialEq, Eq, Structural)]
pub enum InsertLineDirection {
    Above,
    Below,
}

#[derive(Debug, Clone, Copy, PartialEq, Eq, Structural)]
pub enum LineDirection {
    Up,
    Down,
}

/// The new text fits in memory whatever `n` selections plan on `len` bytes.
pub open spec fn plan_fits(len: int, n: int) -> bool {
    (n + 1) * (3 * len + 8) <= usize::MAX
}

/// The line ending of the document: that of its first line.
pub open spec fn line_ending(t: Seq<u8>) -> Seq<u8> {
    let first = text::line_bytes(t, 0);
    if text::line_count(t) > 1 && first.len() > 0 && first.last() == 13 {
        seq![13u8, 10u8]
    } else {
        seq![10u8]
    }
}

/// The first `n` of the given rows, without their endings, joined by `sep`.
pub open spec fn joined(t: Seq<u8>, rows: Seq<int>, sep: Seq<u8>, n: int) -> Seq<u8>
    decreases n,
{
    if n <= 0 {
        Seq::empty()
    } else if n == 1 {
        text::content_bytes(t, rows[0])
    } else {
        joined(t, rows, sep, n - 1) + sep + text::content_bytes(t, rows[n - 1])
    }
}

/// Where the `k`-th of the joined rows starts.
pub open spec fn joined_start(t: Seq<u8>, rows: Seq<int>, sep: Seq<u8>, k: int) -> int {
    joined(t, rows, sep, k).len() + if k > 0 {
        sep.len() as int
    } else {
        0
    }
}

/// The rows from `first` to `last`.
pub open spec fn row_range(first: int, last: int) -> Seq<int> {
    if last < first {
        Seq::empty()
    } else {
        Seq::new((last - first + 1) as nat, |i: int| first + i)
    }
}

/// The bytes of the rows from `first` to `last` with two bytes of line ending each.
pub open spec fn rows_weight(t: Seq<u8>, first: int, last: int) -> int
    decreases last - first + 1,
{
    if last < first {
        0
    } else {
        rows_weight(t, first, last - 1) + text::content_bytes(t, last).len() + 2
    }
}

/// Rows are no heavier than twice what they span.
pub proof fn lemma_rows_weight(t: Seq<u8>, first: int, last: int)
    requires
        0 <= first <= last < text::line_count(t),
    ensures
        0 <= rows_weight(t, first, last) <= 2 * (text::line_end(t, last) - text::line_start(
            t,
            first,
        )) + 2,
        text::line_start(t, first) <= text::line_end(t, last) <= t.len(),
    decreases last - first,
{
    text::lemma_line_end(t, last);
    text::lemma_line_start_monotonic(t, first, last);
    if first < last {
        lemma_rows_weight(t, first, last - 1);
        text::lemma_line_end(t, last - 1);
    } else {
        assert(rows_weight(t, first, last - 1) == 0);
    }
}

/// The weight of a sequence of rows.
pub open spec fn weight(t: Seq<u8>, rows: Seq<int>, n: int) -> int
    decreases n,
{
    if n <= 0 {
        0
    } else {
        weight(t, rows, n - 1) + text::content_bytes(t, rows[n - 1]).len() + 2
    }
}

pub proof fn lemma_joined_weight(t: Seq<u8>, rows: Seq<int>, sep: Seq<u8>, n: int)
    requires
        0 <= n <= rows.len(),
        sep.len() <= 2,
    ensures
        joined(t, rows, sep, n).len() <= weight(t, rows, n),
        n > 0 ==> joined(t, rows, sep, n).len() + 2 <= weight(t, rows, n),
    decreases n,
{
    if n > 0 {
        lemma_joined_weight(t, rows, sep, n - 1);
    }
}

pub proof fn lemma_weight_range(t: Seq<u8>, first: int, last: int, n: int)
    requires
        0 <= n <= last - first + 1,
    ensures
        weight(t, row_range(first, last), n) == rows_weight(t, first, first + n - 1),
    decreases n,
{
    if n > 0 {
        lemma_weight_range(t, first, last, n - 1);
    }
}

/// Where the `k`-th of `n` joined rows lies: within the joined text.
pub proof fn lemma_joined_start(t: Seq<u8>, rows: Seq<int>, sep: Seq<u8>, k: int, n: int)
    requires
        0 <= k < n <= rows.len(),
    ensures
        0 <= joined_start(t, rows, sep, k),
        joined_start(t, rows, sep, k) + text::content_bytes(t, rows[k]).len() == joined(
            t,
            rows,
            sep,
            k + 1,
        ).len(),
        joined(t, rows, sep, k + 1).len() <= joined(t, rows, sep, n).len(),
    decreases n - k,
{
    if k + 1 < n {
        lemma_joined_start(t, rows, sep, k, n - 1);
    }
}

/// The line ending of the document.
pub(crate) fn document_line_ending(document: &Document) -> (ending: &'static str)
    requires
        document.wf(),
    ensures
        encode_utf8(ending@) == line_ending(document.bytes()),
        1 <= encode_utf8(ending@).len() <= 2,
{
    let ghost t = document.bytes();
    proof {
        reveal_strlit("\r\n");
        reveal_strlit("\n");
        comment::lemma_ascii_bytes("\r\n"@);
        comment::lemma_ascii_bytes("\n"@);
        assert(encode_utf8("\r\n"@) =~= seq![13u8, 10u8]);
        assert(encode_utf8("\n"@) =~= seq![10u8]);
        text::lemma_line_end(t, 0);
    }
    if document.lines_len() > 1 {
        let end = document.line_end_offset(0);
        if end > 0 && document.as_bytes()[end - 1] == 13 {
            return "\r\n";
        }
    }
    "\n"
}

/// The given rows, without their endings, joined by `sep`, and where each starts.
pub(crate) fn join_rows(document: &Document, rows: &Vec<usize>, sep: &str) -> (result: (String, Vec<usize>))
    requires
        document.wf(),
    ensures
        encode_utf8((result.0)@) == joined(
            document.bytes(),
            order::indices_view(rows@),
            encode_utf8(sep@),
            rows@.len() as int,
        ),
        result.1@.len() == rows@.len(),
        forall|k: int|
            0 <= k < rows@.len() ==> #[trigger] result.1@[k] == joined_start(
                document.bytes(),
                order::indices_view(rows@),
                encode_utf8(sep@),
                k,
            ),
{
    let ghost t = document.bytes();
    let ghost rv = order::indices_view(rows@);
    let ghost sp = encode_utf8(sep@);
    let mut text = String::new();
    let mut starts: Vec<usize> = Vec::new();
    proof {
        assert(encode_utf8(Seq::<char>::empty()) =~= Seq::<u8>::empty());
    }
    let mut k: usize = 0;
    while k < rows.len()
        invariant
            document.wf(),
            t == document.bytes(),
            rv == order::indices_view(rows@),
            sp == encode_utf8(sep@),
            k <= rows@.len(),
            encode_utf8(text@) == joined(t, rv, sp, k as int),
            starts@.len() == k,
            forall|j: int| 0 <= j < k ==> #[trigger] starts@[j] == joined_start(t, rv, sp, j),
        decreases rows.len() - k,
    {
        if k > 0 {
            text::push_text(&mut text, sep);
        }
        assert(rv[k as int] == rows@[k as int]);
        starts.push(text.as_str().as_bytes().len());
        let content = document.line_content(rows[k]);
        text::push_text(&mut text, content.as_str());
        assert(encode_utf8(text@) =~= joined(t, rv, sp, k + 1));
        k = k + 1;
    }
    (text, starts)
}

/// The rows of each of the first `n` selections.
pub open spec fn block_rows(t: Seq<u8>, selections: Seq<EditorSelection>) -> Seq<(int, int)> {
    Seq::new(
        selections.len(),
        |i: int| comment::selection_rows(t, selections[i])->Some_0,
    )
}

pub open spec fn rows_known(t: Seq<u8>, selections: Seq<EditorSelection>, n: int) -> bool {
    forall|i: int| 0 <= i < n ==> comment::selection_rows(t, #[trigger] selections[i]) is Some
}

pub open spec fn max_int(a: int, b: int) -> int {
    if a >= b {
        a
    } else {
        b
    }
}

/// The first `n` of the sorted blocks with those that overlap made one, and
/// with `slack` of 1 those that touch.
pub open spec fn merged(blocks: Seq<(int, int)>, slack: int, n: int) -> Seq<(int, int)>
    decreases n,
{
    if n <= 0 {
        Seq::empty()
    } else {
        let before = merged(blocks, slack, n - 1);
        let rows = blocks[n - 1];
        if before.len() > 0 && rows.0 <= before.last().1 + slack {
            before.update(before.len() - 1, (before.last().0, max_int(before.last().1, rows.1)))
        } else {
            before.push(rows)
        }
    }
}

pub open spec fn sorted_blocks(blocks: Seq<(int, int)>) -> Seq<(int, int)> {
    let order = order::sorted_order(blocks, blocks.len() as int);
    Seq::new(blocks.len(), |i: int| blocks[order[i]])
}

/// The blocks of rows that the selections cover, merged and from top to bottom.
pub open spec fn line_blocks(
    t: Seq<u8>,
    selections: Seq<EditorSelection>,
    merge_adjacent: bool,
) -> Option<Seq<(int, int)>> {
    if selections.len() == 0 || !rows_known(t, selections, selections.len() as int) {
        None
    } else {
        Some(
            merged(
                sorted_blocks(block_rows(t, selections)),
                if merge_adjacent {
                    1
                } else {
                    0
                },
                selections.len() as int,
            ),
        )
    }
}

/// Blocks of rows of the text, each more than `slack` rows below the one before.
pub open spec fn blocks_apart(blocks: Seq<(int, int)>, slack: int, rows: int) -> bool {
    &&& forall|i: int|
        #![trigger blocks[i]]
        0 <= i < blocks.len() ==> 0 <= blocks[i].0 <= blocks[i].1 < rows
    &&& forall|i: int, j: int|
        #![trigger blocks[i], blocks[j]]
        0 <= i < j < blocks.len() ==> blocks[i].1 + slack < blocks[j].0
}

pub(crate) proof fn lemma_merged(blocks: Seq<(int, int)>, slack: int, rows: int, n: int)
    requires
        0 <= n <= blocks.len(),
        0 <= slack,
        forall|i: int|
            #![trigger blocks[i]]
            0 <= i < blocks.len() ==> 0 <= blocks[i].0 <= blocks[i].1 < rows,
        forall|i: int, j: int|
            #![trigger blocks[i], blocks[j]]
            0 <= i < j < blocks.len() ==> blocks[i].0 <= blocks[j].0,
    ensures
        blocks_apart(merged(blocks, slack, n), slack, rows),
        merged(blocks, slack, n).len() <= n,
        n > 0 ==> merged(blocks, slack, n).len() > 0 && merged(blocks, slack, n).last().0
            <= blocks[n - 1].0,
        forall|i: int|
            #![trigger blocks[i]]
            0 <= i < n ==> exists|k: int|
                0 <= k < merged(blocks, slack, n).len() && (#[trigger] merged(
                    blocks,
                    slack,
                    n,
                )[k]).0 <= blocks[i].0 && blocks[i].1 <= merged(blocks, slack, n)[k].1,
    decreases n,
{
    if n > 0 {
        lemma_merged(blocks, slack, rows, n - 1);
        let before = merged(blocks, slack, n - 1);
        let after = merged(blocks, slack, n);
        let rows_n = blocks[n - 1];
        if n > 1 {
            assert(blocks[n - 2].0 <= blocks[n - 1].0);
        }
        assert forall|i: int| #![trigger blocks[i]] 0 <= i < n implies exists|k: int|
            0 <= k < after.len() && (#[trigger] after[k]).0 <= blocks[i].0 && blocks[i].1
                <= after[k].1 by {
            if i < n - 1 {
                let k = choose|k: int|
                    0 <= k < before.len() && (#[trigger] before[k]).0 <= blocks[i].0 && blocks[i].1
                        <= before[k].1;
                assert(after[k].0 <= blocks[i].0 && blocks[i].1 <= after[k].1);
            } else {
                let k = after.len() - 1;
                assert(after[k].0 <= blocks[i].0 && blocks[i].1 <= after[k].1);
            }
        }
    }
}

pub open spec fn spans_view(spans: Seq<RowSpan>) -> Seq<(int, int)> {
    Seq::new(spans.len(), |i: int| (spans[i].first as int, spans[i].last as int))
}

pub open spec fn all_wf(selections: Seq<EditorSelection>) -> bool {
    forall|i: int| 0 <= i < selections.len() ==> (#[trigger] selections[i]).wf()
}

pub proof fn lemma_selection_rows(t: Seq<u8>, selection: EditorSelection)
    requires
        selection.wf(),
        comment::selection_rows(t, selection) is Some,
    ensures
        ({
            let rows = comment::selection_rows(t, selection)->Some_0;
            0 <= rows.0 <= rows.1 < text::line_count(t) && rows.0 == text::row_at(
                t,
                selection.range.start as int,
            )
        }),
{
    text::lemma_row_at(t, selection.range.start as int);
    text::lemma_row_at(t, selection.range.end as int);
    text::lemma_row_at_monotonic(t, selection.range.start as int, selection.range.end as int);
}

/// The blocks of rows that the selections cover, merged and from top to bottom.
fn selected_line_blocks(
    document: &Document,
    selections: &[EditorSelection],
    merge_adjacent: bool,
) -> (blocks: Option<Vec<RowSpan>>)
    requires
        document.wf(),
        all_wf(selections@),
    ensures
        match blocks {
            Some(blocks) => line_blocks(document.bytes(), selections@, merge_adjacent) == Some(
                spans_view(blocks@),
            ) && blocks_apart(
                spans_view(blocks@),
                if merge_adjacent {
                    1
                } else {
                    0
                },
                text::line_count(document.bytes()),
            ) && 0 < blocks@.len() <= selections@.len(),
            None => line_blocks(document.bytes(), selections@, merge_adjacent) is None,
        },
{
    let ghost t = document.bytes();
    let ghost slack: int = if merge_adjacent {
        1
    } else {
        0
    };
    if selections.len() == 0 {
        return None;
    }
    let mut keys: Vec<(usize, usize)> = Vec::new();
    let mut i: usize = 0;
    while i < selections.len()
        invariant
            document.wf(),
            t == document.bytes(),
            all_wf(selections@),
            i <= selections@.len(),
            keys@.len() == i,
            rows_known(t, selections@, i as int),
            forall|k: int|
                0 <= k < i ==> comment::selection_rows(t, selections@[k]) == Some(
                    ((#[trigger] keys@[k]).0 as int, keys@[k].1 as int),
                ),
        decreases selections.len() - i,
    {
        match comment::selection_line_range(document, selections[i]) {
            Some(span) => {
                keys.push((span.first, span.last));
            },
            None => {
                return None;
            },
        }
        i = i + 1;
    }
    let ghost br = block_rows(t, selections@);
    assert(order::keys_view(keys@) =~= br);
    let order = order::stable_order(&keys);
    let ghost sb = sorted_blocks(br);
    let ghost ov = order::indices_view(order@);
    proof {
        assert forall|k: int| #![trigger sb[k]] 0 <= k < sb.len() implies 0 <= sb[k].0 <= sb[k].1
            < text::line_count(t) by {
            lemma_selection_rows(t, selections@[ov[k]]);
        }
        assert forall|a: int, b: int| #![trigger sb[a], sb[b]] 0 <= a < b < sb.len() implies sb[a].0
            <= sb[b].0 by {
            assert(order::key_le(br[ov[a]], br[ov[b]]));
        }
        lemma_merged(sb, slack, text::line_count(t), sb.len() as int);
    }
    let mut blocks: Vec<RowSpan> = Vec::new();
    let mut n: usize = 0;
    assert(spans_view(blocks@) =~= merged(sb, slack, 0));
    while n < order.len()
        invariant
            slack == (if merge_adjacent {
                1int
            } else {
                0int
            }),
            n <= order@.len(),
            order@.len() == keys@.len(),
            br == order::keys_view(keys@),
            ov == order::indices_view(order@),
            ov == order::sorted_order(br, br.len() as int),
            forall|i: int| 0 <= i < order@.len() ==> #[trigger] order@[i] < keys@.len(),
            sb == sorted_blocks(br),
            spans_view(blocks@) == merged(sb, slack, n as int),
        decreases order.len() - n,
    {
        let key = keys[order[n]];
        assert(ov[n as int] == order@[n as int]);
        assert(sb[n as int] == (key.0 as int, key.1 as int));
        let ghost before = blocks@;
        let count: usize = blocks.len();
        assert(spans_view(before).len() == count);
        if count > 0 {
            let previous = blocks[count - 1];
            assert(spans_view(before).last() == (previous.first as int, previous.last as int));
            let touches = if merge_adjacent {
                key.0 <= previous.last || key.0 - previous.last <= 1
            } else {
                key.0 <= previous.last
            };
            if touches {
                let last: usize = if previous.last >= key.1 {
                    previous.last
                } else {
                    key.1
                };
                blocks[count - 1] = RowSpan { first: previous.first, last };
                assert(spans_view(blocks@) =~= merged(sb, slack, n + 1));
            } else {
                blocks.push(RowSpan { first: key.0, last: key.1 });
                assert(spans_view(blocks@) =~= merged(sb, slack, n + 1));
            }
        } else {
            blocks.push(RowSpan { first: key.0, last: key.1 });
            assert(spans_view(blocks@) =~= merged(sb, slack, n + 1));
        }
        n = n + 1;
    }
    Some(blocks)
}

/// Where the line ending before `line_start` begins.
pub open spec fn preceding_ending(t: Seq<u8>, line_start: int) -> int {
    if line_start >= 2 && t[line_start - 2] == 13 && t[line_start - 1] == 10 {
        line_start - 2
    } else if line_start >= 1 {
        line_start - 1
    } else {
        0
    }
}

/// What goes when a block of rows is deleted: the rows with their line
/// endings, and for a block at the end of the text the ending before it.
pub open spec fn delete_range(t: Seq<u8>, block: (int, int)) -> (int, int) {
    let start = text::line_start(t, block.0);
    if block.1 + 1 < text::line_count(t) {
        (start, text::line_start(t, block.1 + 1))
    } else {
        (preceding_ending(t, start), t.len() as int)
    }
}

/// The deletions of the first `n` blocks.
pub open spec fn delete_edits(t: Seq<u8>, blocks: Seq<(int, int)>, n: int) -> Seq<
    (int, int, Seq<u8>),
>
    decreases n,
{
    if n <= 0 {
        Seq::empty()
    } else {
        let before = delete_edits(t, blocks, n - 1);
        let range = delete_range(t, blocks[n - 1]);
        if range.0 == range.1 {
            before
        } else {
            before.push((range.0, range.1, Seq::empty()))
        }
    }
}

/// Where the carets of block `k` come to lie.
pub open spec fn delete_caret(t: Seq<u8>, blocks: Seq<(int, int)>, k: int) -> int {
    let before = delete_edits(t, blocks, k);
    delete_range(t, blocks[k]).0 - edit::removed(before, before.len() as int)
}

/// The caret for a selection that starts in `row`, from the first `n` blocks.
pub open spec fn delete_caret_for(t: Seq<u8>, blocks: Seq<(int, int)>, row: int, n: int) -> Option<
    int,
>
    decreases n,
{
    if n <= 0 {
        None
    } else if blocks[n - 1].0 <= row <= blocks[n - 1].1 && delete_range(t, blocks[n - 1]).0
        != delete_range(t, blocks[n - 1]).1 {
        Some(delete_caret(t, blocks, n - 1))
    } else {
        delete_caret_for(t, blocks, row, n - 1)
    }
}

/// The carets of the first `n` selections.
pub open spec fn delete_selections(
    t: Seq<u8>,
    blocks: Seq<(int, int)>,
    selections: Seq<EditorSelection>,
    n: int,
) -> Seq<EditorSelection>
    decreases n,
{
    if n <= 0 {
        Seq::empty()
    } else {
        let before = delete_selections(t, blocks, selections, n - 1);
        match delete_caret_for(
            t,
            blocks,
            text::row_at(t, selections[n - 1].range.start as int),
            blocks.len() as int,
        ) {
            Some(caret) => before.push(cursor::spec_caret(caret as usize)),
            None => before,
        }
    }
}

/// What deleting lines plans.
pub open spec fn delete_plan(t: Seq<u8>, selections: Seq<EditorSelection>) -> Option<
    (Seq<(int, int, Seq<u8>)>, Seq<EditorSelection>),
> {
    match line_blocks(t, selections, true) {
        Some(blocks) => {
            let edits = delete_edits(t, blocks, blocks.len() as int);
            let after = delete_selections(t, blocks, selections, selections.len() as int);
            if edits.len() == 0 || after.len() == 0 {
                None
            } else {
                Some((edits, after))
            }
        },
        None => None,
    }
}

pub(crate) proof fn lemma_delete_range(t: Seq<u8>, block: (int, int))
    requires
        0 <= block.0 <= block.1 < text::line_count(t),
    ensures
        0 <= delete_range(t, block).0 <= delete_range(t, block).1 <= t.len(),
        block.0 > 0 ==> text::line_start(t, block.0 - 1) <= delete_range(t, block).0,
        block.1 + 1 < text::line_count(t) ==> delete_range(t, block).1 <= text::line_start(
            t,
            block.1 + 1,
        ),
{
    text::lemma_line_start(t, block.0);
    text::lemma_line_start(t, block.1 + 1);
    text::lemma_line_start_monotonic(t, block.0, block.1 + 1);
    if block.0 > 0 {
        text::lemma_line_end(t, block.0 - 1);
        text::lemma_line_start(t, block.0 - 1);
    }
}

/// The deletions are ordered, and end where the last block ends.
proof fn lemma_delete_edits(t: Seq<u8>, blocks: Seq<(int, int)>, n: int)
    requires
        0 <= n <= blocks.len(),
        blocks_apart(blocks, 1, text::line_count(t)),
    ensures
        edit::edits_ordered(delete_edits(t, blocks, n), t.len() as int),
        delete_edits(t, blocks, n).len() <= n,
        forall|i: int|
            #![trigger delete_edits(t, blocks, n)[i]]
            0 <= i < delete_edits(t, blocks, n).len() ==> n > 0 && delete_edits(t, blocks, n)[i].1
                <= delete_range(t, blocks[n - 1]).1,
    decreases n,
{
    if n > 0 {
        lemma_delete_edits(t, blocks, n - 1);
        lemma_delete_range(t, blocks[n - 1]);
        if n > 1 {
            lemma_delete_range(t, blocks[n - 2]);
            assert(blocks[n - 2].1 + 1 < blocks[n - 1].0);
            text::lemma_line_start_monotonic(t, blocks[n - 2].1 + 1, blocks[n - 1].0 - 1);
        }
        let before = delete_edits(t, blocks, n - 1);
        let after = delete_edits(t, blocks, n);
        assert forall|i: int, j: int| #![trigger after[i], after[j]] 0 <= i < j < after.len() implies after[i].1
            <= after[j].0 by {
            if j < before.len() {
                assert(after[i] == before[i] && after[j] == before[j]);
            } else {
                assert(after[i] == before[i]);
            }
        }
    }
}

proof fn lemma_delete_carets(t: Seq<u8>, blocks: Seq<(int, int)>, row: int, n: int)
    requires
        0 <= n <= blocks.len(),
        blocks_apart(blocks, 1, text::line_count(t)),
    ensures
        delete_caret_for(t, blocks, row, n) matches Some(caret) ==> 0 <= caret <= t.len(),
    decreases n,
{
    if n > 0 {
        lemma_delete_carets(t, blocks, row, n - 1);
        lemma_delete_caret(t, blocks, n - 1);
    }
}

proof fn lemma_delete_caret(t: Seq<u8>, blocks: Seq<(int, int)>, k: int)
    requires
        0 <= k < blocks.len(),
        blocks_apart(blocks, 1, text::line_count(t)),
    ensures
        0 <= edit::removed(delete_edits(t, blocks, k), delete_edits(t, blocks, k).len() as int)
            <= delete_range(t, blocks[k]).0,
        0 <= delete_caret(t, blocks, k) <= t.len(),
{
    let before = delete_edits(t, blocks, k);
    lemma_delete_edits(t, blocks, k);
    lemma_delete_edits(t, blocks, k + 1);
    lemma_delete_range(t, blocks[k]);
    edit::lemma_removed(before, t.len() as int, before.len() as int);
    if k > 0 {
        lemma_delete_range(t, blocks[k - 1]);
        assert(blocks[k - 1].1 + 1 < blocks[k].0);
        text::lemma_line_start_monotonic(t, blocks[k - 1].1 + 1, blocks[k].0 - 1);
    }
}

/// What goes when a block of rows is deleted.
fn find_delete_range(document: &Document, block: RowSpan) -> (range: (usize, usize))
    requires
        document.wf(),
        block.first <= block.last < text::line_count(document.bytes()),
    ensures
        delete_range(document.bytes(), (block.first as int, block.last as int)) == (
            range.0 as int,
            range.1 as int,
        ),
        range.0 <= range.1 <= document.bytes().len(),
{
    proof {
        lemma_delete_range(document.bytes(), (block.first as int, block.last as int));
    }
    let start = document.line_start_offset(block.first);
    if block.last < document.lines_len() - 1 {
        (start, document.line_start_offset(block.last + 1))
    } else {
        let bytes = document.as_bytes();
        let begin: usize = if start >= 2 && bytes[start - 2] == 13 && bytes[start - 1] == 10 {
            start - 2
        } else if start >= 1 {
            start - 1
        } else {
            0
        };
        (begin, document.len())
    }
}

/// Plans the deletion of every line that the selections cover.
pub fn plan_delete_lines(text: &Rope, selections: &[EditorSelection]) -> (plan: Option<EditPlan>)
    requires
        all_wf(selections@),
    ensures
        match plan {
            Some(plan) => delete_plan(rope::rope_bytes(*text), selections@) == Some(
                (plan.view_edits(), plan.selections_after@),
            ),
            None => delete_plan(rope::rope_bytes(*text), selections@) is None,
        },
{
    let document = Document::new(rope::rope_to_string(text));
    let ghost t = document.bytes();
    let blocks = match selected_line_blocks(&document, selections, true) {
        Some(blocks) => blocks,
        None => {
            return None;
        },
    };
    let ghost bv = spans_view(blocks@);
    let mut edits: Vec<(Range<usize>, String)> = Vec::new();
    let mut carets: Vec<Option<usize>> = Vec::new();
    let mut less: usize = 0;
    let mut k: usize = 0;
    assert(edit::edits_view(edits@) =~= delete_edits(t, bv, 0));
    while k < blocks.len()
        invariant
            document.wf(),
            t == document.bytes(),
            bv == spans_view(blocks@),
            blocks_apart(bv, 1, text::line_count(t)),
            k <= blocks@.len(),
            edit::edits_view(edits@) == delete_edits(t, bv, k as int),
            less == edit::removed(delete_edits(t, bv, k as int), edits@.len() as int),
            carets@.len() == k,
            forall|j: int|
                0 <= j < k ==> match #[trigger] carets@[j] {
                    Some(caret) => delete_range(t, bv[j]).0 != delete_range(t, bv[j]).1 && caret
                        == delete_caret(t, bv, j),
                    None => delete_range(t, bv[j]).0 == delete_range(t, bv[j]).1,
                },
        decreases blocks.len() - k,
    {
        assert(bv[k as int] == (blocks@[k as int].first as int, blocks@[k as int].last as int));
        let range = find_delete_range(&document, blocks[k]);
        proof {
            lemma_delete_caret(t, bv, k as int);
            lemma_delete_edits(t, bv, k + 1);
            assert(edit::edits_view(edits@).len() == edits@.len());
        }
        if range.0 == range.1 {
            carets.push(None);
        } else {
            carets.push(Some(range.0 - less));
            let ghost before = edits@;
            let deleted = (range.0..range.1, String::new());
            proof {
                edit::lemma_edits_view_push(before, deleted);
                assert(encode_utf8(Seq::<char>::empty()) =~= Seq::<u8>::empty());
                lemma_removed_push(
                    edit::edits_view(before),
                    edit::edit_view(deleted),
                    before.len() as int,
                );
                edit::lemma_removed(
                    delete_edits(t, bv, k + 1),
                    t.len() as int,
                    delete_edits(t, bv, k + 1).len() as int,
                );
            }
            edits.push(deleted);
            less = less + (range.1 - range.0);
        }
        k = k + 1;
    }
    if edits.len() == 0 {
        assert(edit::edits_view(edits@).len() == 0);
        return None;
    }
    let mut selections_after: Vec<EditorSelection> = Vec::new();
    let mut i: usize = 0;
    while i < selections.len()
        invariant
            document.wf(),
            t == document.bytes(),
            bv == spans_view(blocks@),
            blocks_apart(bv, 1, text::line_count(t)),
            carets@.len() == blocks@.len(),
            forall|j: int|
                0 <= j < blocks@.len() ==> match #[trigger] carets@[j] {
                    Some(caret) => delete_range(t, bv[j]).0 != delete_range(t, bv[j]).1 && caret
                        == delete_caret(t, bv, j),
                    None => delete_range(t, bv[j]).0 == delete_range(t, bv[j]).1,
                },
            i <= selections@.len(),
            selections_after@ == delete_selections(t, bv, selections@, i as int),
        decreases selections.len() - i,
    {
        let row = document.offset_to_point(selections[i].range.start).row;
        let mut j: usize = blocks.len();
        let mut found: Option<usize> = None;
        while j > 0 && found.is_none()
            invariant
                j <= blocks@.len(),
                bv == spans_view(blocks@),
                carets@.len() == blocks@.len(),
                forall|j: int|
                    0 <= j < blocks@.len() ==> match #[trigger] carets@[j] {
                        Some(caret) => delete_range(t, bv[j]).0 != delete_range(t, bv[j]).1 && caret
                            == delete_caret(t, bv, j),
                        None => delete_range(t, bv[j]).0 == delete_range(t, bv[j]).1,
                    },
                match found {
                    Some(caret) => delete_caret_for(t, bv, row as int, bv.len() as int) == Some(
                        caret as int,
                    ),
                    None => delete_caret_for(t, bv, row as int, bv.len() as int)
                        == delete_caret_for(t, bv, row as int, j as int),
                },
            decreases j,
        {
            let block = blocks[j - 1];
            assert(bv[j - 1] == (block.first as int, block.last as int));
            assert(carets@[j - 1] is Some || carets@[j - 1] is None);
            if block.first <= row && row <= block.last {
                found = carets[j - 1];
            }
            j = j - 1;
        }
        if let Some(caret) = found {
            selections_after.push(EditorSelection::caret(caret));
        }
        i = i + 1;
    }
    if selections_after.len() == 0 {
        return None;
    }
    Some(EditPlan { edits, selections_after })
}

/// One more edit adds what it removes.
pub proof fn lemma_removed_push(
    edits: Seq<(int, int, Seq<u8>)>,
    edit: (int, int, Seq<u8>),
    n: int,
)
    requires
        0 <= n <= edits.len(),
    ensures
        edit::removed(edits.push(edit), n) == edit::removed(edits, n),
        edit::added(edits.push(edit), n) == edit::added(edits, n),
        edit::removed(edits.push(edit), edits.len() as int + 1) == edit::removed(
            edits.push(edit),
            edits.len() as int,
        ) + (edit.1 - edit.0),
        edit::added(edits.push(edit), edits.len() as int + 1) == edit::added(
            edits.push(edit),
            edits.len() as int,
        ) + edit.2.len(),
    decreases n,
{
    if n > 0 {
        lemma_removed_push(edits, edit, n - 1);
    }
}

/// A block of rows that is written anew: the rows that the selections cover,
/// the edit, where each of those rows starts in the new text of the edit, and
/// where they end in it.
pub struct Rewrite {
    pub first: int,
    pub last: int,
    pub start: int,
    pub end: int,
    pub text: Seq<u8>,
    pub starts: Seq<int>,
    pub tail: int,
}

pub open spec fn rewrite_edits(rewrites: Seq<Rewrite>) -> Seq<(int, int, Seq<u8>)> {
    Seq::new(rewrites.len(), |i: int| (rewrites[i].start, rewrites[i].end, rewrites[i].text))
}

/// The rewrites are ordered, and where their rows lie is within their text.
pub open spec fn rewrites_wf(t: Seq<u8>, rewrites: Seq<Rewrite>) -> bool {
    &&& edit::edits_ordered(rewrite_edits(rewrites), t.len() as int)
    &&& forall|k: int|
        #![trigger rewrites[k]]
        0 <= k < rewrites.len() ==> rewrite_wf(t, rewrites[k])
}

pub open spec fn rewrite_wf(t: Seq<u8>, rewrite: Rewrite) -> bool {
    &&& 0 <= rewrite.first <= rewrite.last < text::line_count(t)
    &&& rewrite.starts.len() == rewrite.last - rewrite.first + 1
    &&& 0 <= rewrite.tail <= rewrite.text.len()
    &&& forall|i: int|
        #![trigger rewrite.starts[i]]
        0 <= i < rewrite.starts.len() ==> 0 <= rewrite.starts[i] && rewrite.starts[i]
            + text::content_bytes(t, rewrite.first + i).len() <= rewrite.text.len()
}

/// Where `offset` comes to lie, given the rewrite of the rows of its selection,
/// which starts at `post` in the new text.
pub open spec fn rewritten_offset(
    t: Seq<u8>,
    offset: int,
    rewrite: Rewrite,
    post: int,
    edits: Seq<(int, int, Seq<u8>)>,
) -> int {
    let row = text::row_at(t, offset);
    let column = text::column_at(t, offset);
    if rewrite.first <= row <= rewrite.last {
        post + rewrite.starts[row - rewrite.first] + edit::min_int(
            column,
            text::content_bytes(t, row).len() as int,
        )
    } else if column == 0 && row == rewrite.last + 1 {
        post + rewrite.tail
    } else {
        edit::shifted(edits, offset, true, 0, 0)
    }
}

/// The first rewrite at or after `k` whose rows hold `row`.
pub open spec fn rewrite_of(rewrites: Seq<Rewrite>, row: int, k: int) -> Option<int>
    decreases rewrites.len() - k,
{
    if k < 0 || k >= rewrites.len() {
        None
    } else if rewrites[k].first <= row <= rewrites[k].last {
        Some(k)
    } else {
        rewrite_of(rewrites, row, k + 1)
    }
}

/// Where a selection comes to lie when the rewrites are made.
pub open spec fn rewritten_selection(
    t: Seq<u8>,
    selection: EditorSelection,
    rewrites: Seq<Rewrite>,
) -> EditorSelection {
    let edits = rewrite_edits(rewrites);
    match rewrite_of(rewrites, text::row_at(t, selection.range.start as int), 0) {
        Some(k) => {
            let post = rewrites[k].start + edit::growth(edits, k);
            cursor::spec_between(
                rewritten_offset(
                    t,
                    selection.range.start as int,
                    rewrites[k],
                    post,
                    edits,
                ) as usize,
                rewritten_offset(t, selection.range.end as int, rewrites[k], post, edits) as usize,
                selection.reversed,
            )
        },
        None => edit::shifted_selection(edits, selection, true),
    }
}

/// The plan that makes the rewrites.
pub open spec fn rewrite_plan(
    t: Seq<u8>,
    selections: Seq<EditorSelection>,
    rewrites: Seq<Rewrite>,
) -> Option<(Seq<(int, int, Seq<u8>)>, Seq<EditorSelection>)> {
    if rewrites.len() == 0 {
        None
    } else {
        Some(
            (
                rewrite_edits(rewrites),
                Seq::new(selections.len(), |i: int| rewritten_selection(t, selections[i], rewrites)),
            ),
        )
    }
}

/// A block of rows that is written anew.
#[derive(Debug)]
struct RewrittenBlock {
    first: usize,
    last: usize,
    start: usize,
    end: usize,
    text: String,
    starts: Vec<usize>,
    tail: usize,
}

spec fn block_view(block: RewrittenBlock) -> Rewrite {
    Rewrite {
        first: block.first as int,
        last: block.last as int,
        start: block.start as int,
        end: block.end as int,
        text: encode_utf8(block.text@),
        starts: order::indices_view(block.starts@),
        tail: block.tail as int,
    }
}

spec fn blocks_view(blocks: Seq<RewrittenBlock>) -> Seq<Rewrite> {
    Seq::new(blocks.len(), |i: int| block_view(blocks[i]))
}

/// Where `offset` comes to lie, given the rewrite of the rows of its selection.
fn map_offset_into_rewrite(
    document: &Document,
    offset: usize,
    rewrite: &RewrittenBlock,
    post: usize,
    edits: &Vec<(Range<usize>, String)>,
) -> (moved: usize)
    requires
        document.wf(),
        rewrite_wf(document.bytes(), block_view(*rewrite)),
        edit::edits_ordered(edit::edits_view(edits@), document.bytes().len() as int),
        offset <= document.bytes().len(),
        offset + edit::added(edit::edits_view(edits@), edits@.len() as int) <= usize::MAX,
        post + encode_utf8(rewrite.text@).len() <= usize::MAX,
    ensures
        moved == rewritten_offset(
            document.bytes(),
            offset as int,
            block_view(*rewrite),
            post as int,
            edit::edits_view(edits@),
        ),
{
    let ghost t = document.bytes();
    let ghost rv = block_view(*rewrite);
    let point = document.offset_to_point(offset);
    if rewrite.first <= point.row && point.row <= rewrite.last {
        let len = document.content_len(point.row);
        let column: usize = if point.column <= len {
            point.column
        } else {
            len
        };
        let at: usize = point.row - rewrite.first;
        assert(rv.starts[at as int] == rewrite.starts@[at as int]);
        return post + rewrite.starts[at] + column;
    }
    if point.column == 0 && point.row > rewrite.last && point.row - rewrite.last == 1 {
        return post + rewrite.tail;
    }
    edit::shift_offset(edits, offset, true)
}

/// The plan that makes the rewrites.
fn finish_rewritten_blocks(
    document: &Document,
    selections: &[EditorSelection],
    rewrites: Vec<RewrittenBlock>,
) -> (plan: Option<EditPlan>)
    requires
        document.wf(),
        rewrites_wf(document.bytes(), blocks_view(rewrites@)),
        forall|i: int|
            #![trigger selections@[i]]
            0 <= i < selections@.len() ==> selections@[i].range.start <= document.bytes().len()
                && selections@[i].range.end <= document.bytes().len(),
        document.bytes().len() + edit::added(
            rewrite_edits(blocks_view(rewrites@)),
            rewrites@.len() as int,
        ) <= usize::MAX,
    ensures
        match plan {
            Some(plan) => rewrite_plan(
                document.bytes(),
                selections@,
                blocks_view(rewrites@),
            ) == Some((plan.view_edits(), plan.selections_after@)),
            None => rewrite_plan(document.bytes(), selections@, blocks_view(rewrites@)) is None,
        },
{
    let ghost t = document.bytes();
    let ghost rv = blocks_view(rewrites@);
    let ghost ev = rewrite_edits(rv);
    if rewrites.len() == 0 {
        return None;
    }
    let mut edits: Vec<(Range<usize>, String)> = Vec::new();
    let mut posts: Vec<usize> = Vec::new();
    let mut more: usize = 0;
    let mut less: usize = 0;
    let mut k: usize = 0;
    while k < rewrites.len()
        invariant
            t == document.bytes(),
            rv == blocks_view(rewrites@),
            ev == rewrite_edits(rv),
            rewrites_wf(t, rv),
            t.len() + edit::added(ev, rewrites@.len() as int) <= usize::MAX,
            k <= rewrites@.len(),
            edits@.len() == k,
            posts@.len() == k,
            more == edit::added(ev, k as int),
            less == edit::removed(ev, k as int),
            forall|j: int| 0 <= j < k ==> edit::edit_view(#[trigger] edits@[j]) == ev[j],
            forall|j: int|
                0 <= j < k ==> #[trigger] posts@[j] == ev[j].0 + edit::growth(ev, j) && posts@[j]
                    + ev[j].2.len() <= usize::MAX,
        decreases rewrites.len() - k,
    {
        let rewrite = &rewrites[k];
        proof {
            assert(rv[k as int] == block_view(rewrites@[k as int]));
            edit::lemma_removed(ev, t.len() as int, k as int);
            edit::lemma_added_monotonic(ev, k + 1, rewrites@.len() as int);
        }
        let size: usize = rewrite.text.as_str().as_bytes().len();
        edits.push((rewrite.start..rewrite.end, rewrite.text.clone()));
        posts.push(rewrite.start - less + more);
        more = more + size;
        less = less + (rewrite.end - rewrite.start);
        k = k + 1;
    }
    assert(edit::edits_view(edits@) =~= ev);
    let mut selections_after: Vec<EditorSelection> = Vec::new();
    let mut i: usize = 0;
    while i < selections.len()
        invariant
            document.wf(),
            t == document.bytes(),
            rv == blocks_view(rewrites@),
            ev == rewrite_edits(rv),
            rewrites_wf(t, rv),
            t.len() + edit::added(ev, rewrites@.len() as int) <= usize::MAX,
            ev == edit::edits_view(edits@),
            posts@.len() == rewrites@.len(),
            forall|j: int|
                0 <= j < rewrites@.len() ==> #[trigger] posts@[j] == ev[j].0 + edit::growth(ev, j)
                    && posts@[j] + ev[j].2.len() <= usize::MAX,
            forall|i: int|
                #![trigger selections@[i]]
                0 <= i < selections@.len() ==> selections@[i].range.start <= t.len()
                    && selections@[i].range.end <= t.len(),
            i <= selections@.len(),
            selections_after@.len() == i,
            forall|j: int|
                0 <= j < i ==> #[trigger] selections_after@[j] == rewritten_selection(
                    t,
                    selections@[j],
                    rv,
                ),
        decreases selections.len() - i,
    {
        let selection = selections[i];
        let row = document.offset_to_point(selection.range.start).row;
        assert(edits@.len() == ev.len());
        let mut k: usize = 0;
        while k < rewrites.len() && !(rewrites[k].first <= row && row <= rewrites[k].last)
            invariant
                k <= rewrites@.len(),
                rv == blocks_view(rewrites@),
                rewrite_of(rv, row as int, 0) == rewrite_of(rv, row as int, k as int),
            decreases rewrites.len() - k,
        {
            assert(rv[k as int] == block_view(rewrites@[k as int]));
            k = k + 1;
        }
        if k < rewrites.len() {
            assert(rv[k as int] == block_view(rewrites@[k as int]));
            let start = map_offset_into_rewrite(
                document,
                selection.range.start,
                &rewrites[k],
                posts[k],
                &edits,
            );
            let end = map_offset_into_rewrite(
                document,
                selection.range.end,
                &rewrites[k],
                posts[k],
                &edits,
            );
            selections_after.push(EditorSelection::between(start, end, selection.reversed));
        } else {
            selections_after.push(edit::shift_selection(&edits, selection, true));
        }
        i = i + 1;
    }
    proof {
        let expected = (rewrite_plan(t, selections@, rv)->Some_0).1;
        assert(selections_after@ =~= expected);
    }
    Some(EditPlan { edits, selections_after })
}

/// The rows that a move writes anew, in their new order.
pub open spec fn move_order(block: (int, int), direction: LineDirection) -> Seq<int> {
    match direction {
        LineDirection::Up => row_range(block.0, block.1).push(block.0 - 1),
        LineDirection::Down => seq![block.1 + 1] + row_range(block.0, block.1),
    }
}

/// A block of rows changes places with the row above or below it.
pub open spec fn move_rewrite(t: Seq<u8>, block: (int, int), direction: LineDirection) -> Rewrite {
    let sep = line_ending(t);
    let rows = move_order(block, direction);
    let top = if direction is Up {
        block.0 - 1
    } else {
        block.0
    };
    let bottom = if direction is Up {
        block.1
    } else {
        block.1 + 1
    };
    let lead: int = if direction is Up {
        0
    } else {
        1
    };
    let body = joined(t, rows, sep, rows.len() as int);
    let text = if bottom + 1 < text::line_count(t) {
        body + sep
    } else {
        body
    };
    Rewrite {
        first: block.0,
        last: block.1,
        start: text::line_start(t, top),
        end: if bottom + 1 < text::line_count(t) {
            text::line_start(t, bottom + 1)
        } else {
            t.len() as int
        },
        text,
        starts: Seq::new(
            (block.1 - block.0 + 1) as nat,
            |i: int| joined_start(t, rows, sep, i + lead),
        ),
        tail: if direction is Up {
            joined_start(t, rows, sep, block.1 - block.0 + 1)
        } else {
            text.len() as int
        },
    }
}

/// Whether there is a row on the side to which the block moves.
pub open spec fn is_movable(t: Seq<u8>, block: (int, int), direction: LineDirection) -> bool {
    match direction {
        LineDirection::Up => block.0 > 0,
        LineDirection::Down => block.1 < text::line_count(t) - 1,
    }
}

/// The rewrites of the movable among the first `n` blocks.
pub open spec fn move_rewrites(
    t: Seq<u8>,
    blocks: Seq<(int, int)>,
    direction: LineDirection,
    n: int,
) -> Seq<Rewrite>
    decreases n,
{
    if n <= 0 {
        Seq::empty()
    } else {
        let before = move_rewrites(t, blocks, direction, n - 1);
        if is_movable(t, blocks[n - 1], direction) {
            before.push(move_rewrite(t, blocks[n - 1], direction))
        } else {
            before
        }
    }
}

/// What moving lines plans.
pub open spec fn move_plan(
    t: Seq<u8>,
    selections: Seq<EditorSelection>,
    direction: LineDirection,
) -> Option<(Seq<(int, int, Seq<u8>)>, Seq<EditorSelection>)> {
    match line_blocks(t, selections, true) {
        Some(blocks) => rewrite_plan(
            t,
            selections,
            move_rewrites(t, blocks, direction, blocks.len() as int),
        ),
        None => None,
    }
}

/// Weights add up.
proof fn lemma_weight_concat(t: Seq<u8>, a: Seq<int>, b: Seq<int>, n: int)
    requires
        0 <= n <= b.len(),
    ensures
        weight(t, a + b, a.len() + n) == weight(t, a, a.len() as int) + weight(t, b, n),
    decreases n,
{
    if n > 0 {
        lemma_weight_concat(t, a, b, n - 1);
    } else {
        lemma_weight_prefix(t, a, a + b, a.len() as int);
    }
}

proof fn lemma_weight_prefix(t: Seq<u8>, a: Seq<int>, b: Seq<int>, n: int)
    requires
        0 <= n <= a.len(),
        n <= b.len(),
        forall|i: int| 0 <= i < n ==> a[i] == b[i],
    ensures
        weight(t, a, n) == weight(t, b, n),
    decreases n,
{
    if n > 0 {
        lemma_weight_prefix(t, a, b, n - 1);
    }
}

proof fn lemma_rows_weight_split(t: Seq<u8>, first: int, last: int)
    requires
        first <= last,
    ensures
        rows_weight(t, first, last) == text::content_bytes(t, first).len() + 2 + rows_weight(
            t,
            first + 1,
            last,
        ),
    decreases last - first,
{
    if first < last {
        lemma_rows_weight_split(t, first, last - 1);
    } else {
        assert(rows_weight(t, first, last - 1) == 0);
        assert(rows_weight(t, first + 1, last) == 0);
    }
}

/// A moved block is well formed and bounded by what it spans.
proof fn lemma_move_rewrite(t: Seq<u8>, block: (int, int), direction: LineDirection)
    requires
        0 <= block.0 <= block.1 < text::line_count(t),
        is_movable(t, block, direction),
    ensures
        rewrite_wf(t, move_rewrite(t, block, direction)),
        move_rewrite(t, block, direction).text.len() <= 2 * t.len() + 4,
        0 <= move_rewrite(t, block, direction).start <= move_rewrite(t, block, direction).end
            <= t.len(),
{
    let rows = move_order(block, direction);
    let sep = line_ending(t);
    let rewrite = move_rewrite(t, block, direction);
    let count = block.1 - block.0 + 1;
    let range = row_range(block.0, block.1);
    lemma_weight_range(t, block.0, block.1, count);
    match direction {
        LineDirection::Up => {
            assert(range.push(block.0 - 1) =~= range + seq![block.0 - 1]);
            lemma_weight_concat(t, range, seq![block.0 - 1], 1);
            assert(weight(t, seq![block.0 - 1], 1) == weight(t, seq![block.0 - 1], 0)
                + text::content_bytes(t, block.0 - 1).len() + 2);
            lemma_rows_weight_split(t, block.0 - 1, block.1);
            lemma_rows_weight(t, block.0 - 1, block.1);
            text::lemma_line_start_monotonic(t, block.0 - 1, block.1 + 1);
        },
        LineDirection::Down => {
            lemma_weight_concat(t, seq![block.1 + 1], range, count);
            assert(weight(t, seq![block.1 + 1], 1) == weight(t, seq![block.1 + 1], 0)
                + text::content_bytes(t, block.1 + 1).len() + 2);
            lemma_rows_weight(t, block.0, block.1 + 1);
            text::lemma_line_start_monotonic(t, block.0, block.1 + 2);
        },
    }
    text::lemma_line_start(t, block.0);
    text::lemma_line_start(t, block.0 - 1);
    text::lemma_line_start(t, block.1 + 1);
    text::lemma_line_start(t, block.1 + 2);
    lemma_joined_weight(t, rows, sep, rows.len() as int);
    let lead: int = if direction is Up {
        0
    } else {
        1
    };
    assert forall|i: int| #![trigger rewrite.starts[i]] 0 <= i < rewrite.starts.len() implies 0
        <= rewrite.starts[i] && rewrite.starts[i] + text::content_bytes(t, rewrite.first + i).len()
        <= rewrite.text.len() by {
        lemma_joined_start(t, rows, sep, i + lead, rows.len() as int);
        assert(rows[i + lead] == block.0 + i);
    }
    if direction is Up {
        lemma_joined_start(t, rows, sep, count, rows.len() as int);
    }
}

/// Moved blocks lie one after the other.
proof fn lemma_move_rewrites(
    t: Seq<u8>,
    blocks: Seq<(int, int)>,
    direction: LineDirection,
    n: int,
)
    requires
        0 <= n <= blocks.len(),
        blocks_apart(blocks, 1, text::line_count(t)),
    ensures
        rewrites_wf(t, move_rewrites(t, blocks, direction, n)),
        move_rewrites(t, blocks, direction, n).len() <= n,
        edits_limited(rewrite_edits(move_rewrites(t, blocks, direction, n)), 2 * t.len() as int + 4),
        forall|i: int|
            #![trigger move_rewrites(t, blocks, direction, n)[i]]
            0 <= i < move_rewrites(t, blocks, direction, n).len() ==> n > 0 && move_rewrites(
                t,
                blocks,
                direction,
                n,
            )[i].end <= text::line_start(
                t,
                blocks[n - 1].1 + if direction is Up {
                    1int
                } else {
                    2int
                },
            ),
    decreases n,
{
    if n > 0 {
        lemma_move_rewrites(t, blocks, direction, n - 1);
        let before = move_rewrites(t, blocks, direction, n - 1);
        let after = move_rewrites(t, blocks, direction, n);
        let reach: int = if direction is Up {
            1
        } else {
            2
        };
        let top: int = if direction is Up {
            blocks[n - 1].0 - 1
        } else {
            blocks[n - 1].0
        };
        assert(blocks[n - 1].0 <= blocks[n - 1].1);
        if n > 1 {
            assert(blocks[n - 2].1 + 1 < blocks[n - 1].0);
            text::lemma_line_start_monotonic(t, blocks[n - 2].1 + reach, top);
            text::lemma_line_start_monotonic(t, blocks[n - 2].1 + reach, blocks[n - 1].1 + reach);
        }
        if is_movable(t, blocks[n - 1], direction) {
            lemma_move_rewrite(t, blocks[n - 1], direction);
            text::lemma_line_start(t, blocks[n - 1].1 + reach);
        }
        let eb = rewrite_edits(before);
        let ea = rewrite_edits(after);
        assert forall|i: int, j: int| #![trigger ea[i], ea[j]] 0 <= i < j < ea.len() implies ea[i].1
            <= ea[j].0 by {
            assert(ea[i] == eb[i]);
            assert(after[i] == before[i]);
            if j < eb.len() {
                assert(ea[j] == eb[j]);
            }
        }
        assert forall|i: int| #![trigger ea[i]] 0 <= i < ea.len() implies 0 <= ea[i].0 <= ea[i].1
            <= t.len() && ea[i].2.len() <= 2 * t.len() + 4 by {
            if i < eb.len() {
                assert(ea[i] == eb[i]);
            }
        }
        assert forall|k: int| #![trigger after[k]] 0 <= k < after.len() implies rewrite_wf(t, after[k]) by {
            if k < before.len() {
                assert(after[k] == before[k]);
            }
        }
    }
}

pub open spec fn edits_limited(edits: Seq<(int, int, Seq<u8>)>, bound: int) -> bool {
    forall|i: int| #![trigger edits[i]] 0 <= i < edits.len() ==> edits[i].2.len() <= bound
}

/// Edits of bounded size for the selections fit where `plan_fits` holds.
pub(crate) proof fn lemma_plan_fits(len: int, n: int, edits: Seq<(int, int, Seq<u8>)>)
    requires
        0 <= len,
        plan_fits(len, n),
        edits.len() <= n,
        edits_limited(edits, 3 * len + 8),
    ensures
        len + edit::added(edits, edits.len() as int) <= usize::MAX,
        edit::added(edits, edits.len() as int) >= 0,
{
    edit::lemma_added(edits, 3 * len + 8, edits.len() as int);
    assert(edits.len() * (3 * len + 8) <= n * (3 * len + 8)) by (nonlinear_arith)
        requires
            edits.len() <= n,
            0 <= len,
    ;
    assert((n + 1) * (3 * len + 8) == n * (3 * len + 8) + (3 * len + 8)) by (nonlinear_arith);
}

/// The rows from `first` to `last`.
fn collect_rows(first: usize, last: usize) -> (rows: Vec<usize>)
    requires
        first <= last < usize::MAX,
    ensures
        order::indices_view(rows@) == row_range(first as int, last as int),
{
    let mut rows: Vec<usize> = Vec::new();
    let mut row: usize = first;
    while row <= last
        invariant
            first <= row <= last + 1,
            last < usize::MAX,
            rows@.len() == row - first,
            forall|i: int| 0 <= i < rows@.len() ==> #[trigger] rows@[i] == first + i,
        decreases last + 1 - row,
    {
        rows.push(row);
        row = row + 1;
    }
    assert(order::indices_view(rows@) =~= row_range(first as int, last as int));
    rows
}

/// A block of rows changes places with the row above or below it.
fn compose_move(document: &Document, block: RowSpan, direction: LineDirection) -> (rewrite:
    RewrittenBlock)
    requires
        document.wf(),
        block.first <= block.last < text::line_count(document.bytes()),
        is_movable(document.bytes(), (block.first as int, block.last as int), direction),
    ensures
        block_view(rewrite) == move_rewrite(
            document.bytes(),
            (block.first as int, block.last as int),
            direction,
        ),
{
    let ghost t = document.bytes();
    let ghost bv = (block.first as int, block.last as int);
    proof {
        document.lemma_wf();
    }
    let ending = document_line_ending(document);
    let lines = document.lines_len();
    let mut rows: Vec<usize> = Vec::new();
    let (top, bottom): (usize, usize) = match direction {
        LineDirection::Up => {
            rows = collect_rows(block.first, block.last);
            let ghost before = rows@;
            rows.push(block.first - 1);
            assert(order::indices_view(rows@) =~= order::indices_view(before).push(
                block.first - 1,
            ));
            (block.first - 1, block.last)
        },
        LineDirection::Down => {
            let mut below = collect_rows(block.first, block.last);
            let ghost before = below@;
            rows.push(block.last + 1);
            rows.append(&mut below);
            assert(order::indices_view(rows@) =~= seq![block.last + 1] + order::indices_view(
                before,
            ));
            (block.first, block.last + 1)
        },
    };
    let ghost order = move_order(bv, direction);
    assert(order::indices_view(rows@) == order);
    let (mut text, joined_starts) = join_rows(document, &rows, ending);
    let start = document.line_start_offset(top);
    let has_more = bottom < lines - 1;
    let end: usize = if has_more {
        document.line_start_offset(bottom + 1)
    } else {
        document.len()
    };
    if has_more {
        text::push_text(&mut text, ending);
    }
    let lead: usize = match direction {
        LineDirection::Up => 0,
        LineDirection::Down => 1,
    };
    let mut starts: Vec<usize> = Vec::new();
    let count: usize = block.last - block.first + 1;
    assert(rows@.len() == count + 1);
    let mut i: usize = 0;
    while i < count
        invariant
            i <= count,
            lead <= 1,
            joined_starts@.len() == count + 1,
            starts@.len() == i,
            forall|j: int|
                0 <= j < i ==> #[trigger] starts@[j] == joined_starts@[j + lead],
        decreases count - i,
    {
        starts.push(joined_starts[i + lead]);
        i = i + 1;
    }
    let tail: usize = match direction {
        LineDirection::Up => joined_starts[count],
        LineDirection::Down => text.as_str().as_bytes().len(),
    };
    proof {
        let expected = move_rewrite(t, bv, direction);
        assert(order::indices_view(starts@) =~= expected.starts) by {
            assert forall|j: int| 0 <= j < count implies starts@[j] == expected.starts[j] by {
                assert(starts@[j] == joined_starts@[j + lead]);
            }
        }
    }
    RewrittenBlock { first: block.first, last: block.last, start, end, text, starts, tail }
}

/// Plans moving the lines that the selections cover by one line.
pub fn plan_move_lines(
    text: &Rope,
    selections: &[EditorSelection],
    direction: LineDirection,
) -> (plan: Option<EditPlan>)
    requires
        all_wf(selections@),
        plan_fits(rope::rope_bytes(*text).len() as int, selections@.len() as int),
    ensures
        match plan {
            Some(plan) => move_plan(rope::rope_bytes(*text), selections@, direction) == Some(
                (plan.view_edits(), plan.selections_after@),
            ),
            None => move_plan(rope::rope_bytes(*text), selections@, direction) is None,
        },
{
    let document = Document::new(rope::rope_to_string(text));
    let ghost t = document.bytes();
    let blocks = match selected_line_blocks(&document, selections, true) {
        Some(blocks) => blocks,
        None => {
            return None;
        },
    };
    let ghost bv = spans_view(blocks@);
    let lines = document.lines_len();
    let mut rewrites: Vec<RewrittenBlock> = Vec::new();
    assert(blocks_view(rewrites@) =~= move_rewrites(t, bv, direction, 0));
    let mut k: usize = 0;
    while k < blocks.len()
        invariant
            document.wf(),
            t == document.bytes(),
            lines == text::line_count(t),
            lines > 0,
            bv == spans_view(blocks@),
            blocks_apart(bv, 1, text::line_count(t)),
            k <= blocks@.len(),
            blocks_view(rewrites@) == move_rewrites(t, bv, direction, k as int),
        decreases blocks.len() - k,
    {
        let block = blocks[k];
        assert(bv[k as int] == (block.first as int, block.last as int));
        let movable = match direction {
            LineDirection::Up => block.first > 0,
            LineDirection::Down => block.last < lines - 1,
        };
        if movable {
            let ghost before = rewrites@;
            let rewrite = compose_move(&document, block, direction);
            rewrites.push(rewrite);
            assert(blocks_view(rewrites@) =~= blocks_view(before).push(block_view(rewrite)));
        }
        k = k + 1;
    }
    proof {
        lemma_move_rewrites(t, bv, direction, bv.len() as int);
        lemma_plan_fits(
            t.len() as int,
            selections@.len() as int,
            rewrite_edits(blocks_view(rewrites@)),
        );
        assert forall|i: int| #![trigger selections@[i]] 0 <= i < selections@.len() implies selections@[i].range.start
            <= t.len() && selections@[i].range.end <= t.len() by {
            assert(comment::selection_rows(t, selections@[i]) is Some);
        }
    }
    finish_rewritten_blocks(&document, selections, rewrites)
}

/// A copy of a block of rows, put above it or below it.
pub open spec fn copy_rewrite(t: Seq<u8>, block: (int, int), direction: LineDirection) -> Rewrite {
    let sep = line_ending(t);
    let rows = row_range(block.0, block.1);
    let body = joined(t, rows, sep, rows.len() as int);
    let at_end = direction is Down && block.1 + 1 >= text::line_count(t);
    let offset = if direction is Up {
        text::line_start(t, block.0)
    } else if at_end {
        t.len() as int
    } else {
        text::line_start(t, block.1 + 1)
    };
    let text = if at_end {
        sep + body
    } else {
        body + sep
    };
    Rewrite {
        first: block.0,
        last: block.1,
        start: offset,
        end: offset,
        text,
        starts: Seq::new(
            rows.len(),
            |i: int|
                joined_start(t, rows, sep, i) + if at_end {
                    sep.len() as int
                } else {
                    0
                },
        ),
        tail: text.len() as int,
    }
}

pub open spec fn copy_rewrites(
    t: Seq<u8>,
    blocks: Seq<(int, int)>,
    direction: LineDirection,
) -> Seq<Rewrite> {
    Seq::new(blocks.len(), |i: int| copy_rewrite(t, blocks[i], direction))
}

/// What copying lines plans. Blocks that only touch are copied one by one.
pub open spec fn copy_plan(
    t: Seq<u8>,
    selections: Seq<EditorSelection>,
    direction: LineDirection,
) -> Option<(Seq<(int, int, Seq<u8>)>, Seq<EditorSelection>)> {
    match line_blocks(t, selections, false) {
        Some(blocks) => rewrite_plan(t, selections, copy_rewrites(t, blocks, direction)),
        None => None,
    }
}

proof fn lemma_copy_rewrite(t: Seq<u8>, block: (int, int), direction: LineDirection)
    requires
        0 <= block.0 <= block.1 < text::line_count(t),
    ensures
        rewrite_wf(t, copy_rewrite(t, block, direction)),
        copy_rewrite(t, block, direction).text.len() <= 2 * t.len() + 4,
        0 <= copy_rewrite(t, block, direction).start <= t.len(),
{
    let rows = row_range(block.0, block.1);
    let sep = line_ending(t);
    let rewrite = copy_rewrite(t, block, direction);
    lemma_weight_range(t, block.0, block.1, rows.len() as int);
    lemma_rows_weight(t, block.0, block.1);
    lemma_joined_weight(t, rows, sep, rows.len() as int);
    text::lemma_line_start(t, block.0);
    text::lemma_line_start(t, block.1 + 1);
    assert forall|i: int| #![trigger rewrite.starts[i]] 0 <= i < rewrite.starts.len() implies 0
        <= rewrite.starts[i] && rewrite.starts[i] + text::content_bytes(t, rewrite.first + i).len()
        <= rewrite.text.len() by {
        lemma_joined_start(t, rows, sep, i, rows.len() as int);
        assert(rows[i] == block.0 + i);
    }
}

proof fn lemma_copy_rewrites(t: Seq<u8>, blocks: Seq<(int, int)>, direction: LineDirection)
    requires
        blocks_apart(blocks, 0, text::line_count(t)),
    ensures
        rewrites_wf(t, copy_rewrites(t, blocks, direction)),
        edits_limited(rewrite_edits(copy_rewrites(t, blocks, direction)), 2 * t.len() as int + 4),
{
    let rewrites = copy_rewrites(t, blocks, direction);
    let edits = rewrite_edits(rewrites);
    assert forall|i: int| #![trigger edits[i]] 0 <= i < edits.len() implies 0 <= edits[i].0
        <= edits[i].1 <= t.len() && edits[i].2.len() <= 2 * t.len() + 4 by {
        lemma_copy_rewrite(t, blocks[i], direction);
    }
    assert forall|k: int| #![trigger rewrites[k]] 0 <= k < rewrites.len() implies rewrite_wf(
        t,
        rewrites[k],
    ) by {
        lemma_copy_rewrite(t, blocks[k], direction);
    }
    assert forall|i: int, j: int| #![trigger edits[i], edits[j]] 0 <= i < j < edits.len() implies edits[i].1
        <= edits[j].0 by {
        assert(blocks[i].1 < blocks[j].0);
        assert(blocks[i].0 <= blocks[i].1);
        assert(blocks[j].0 <= blocks[j].1 < text::line_count(t));
        text::lemma_line_start_monotonic(t, blocks[i].0, blocks[j].0);
        text::lemma_line_start_monotonic(t, blocks[i].1 + 1, blocks[j].1 + 1);
        text::lemma_line_start(t, blocks[i].1 + 1);
    }
}

/// A copy of a block of rows, put above it or below it.
fn compose_copy(document: &Document, block: RowSpan, direction: LineDirection) -> (rewrite:
    RewrittenBlock)
    requires
        document.wf(),
        block.first <= block.last < text::line_count(document.bytes()),
    ensures
        block_view(rewrite) == copy_rewrite(
            document.bytes(),
            (block.first as int, block.last as int),
            direction,
        ),
{
    let ghost t = document.bytes();
    let ghost bv = (block.first as int, block.last as int);
    proof {
        document.lemma_wf();
        assert(encode_utf8(Seq::<char>::empty()) =~= Seq::<u8>::empty());
    }
    let ending = document_line_ending(document);
    let lines = document.lines_len();
    let rows = collect_rows(block.first, block.last);
    let (body, joined_starts) = join_rows(document, &rows, ending);
    let (at_end, offset): (bool, usize) = match direction {
        LineDirection::Up => (false, document.line_start_offset(block.first)),
        LineDirection::Down => if block.last < lines - 1 {
            (false, document.line_start_offset(block.last + 1))
        } else {
            (true, document.len())
        },
    };
    let mut text = String::new();
    let lead: usize = if at_end {
        ending.as_bytes().len()
    } else {
        0
    };
    if at_end {
        text::push_text(&mut text, ending);
        text::push_text(&mut text, body.as_str());
    } else {
        text::push_text(&mut text, body.as_str());
        text::push_text(&mut text, ending);
    }
    proof {
        lemma_copy_rewrite(t, bv, direction);
        assert(encode_utf8(text@) =~= copy_rewrite(t, bv, direction).text);
        assert(rows@.len() == row_range(bv.0, bv.1).len());
    }
    let tail: usize = text.as_str().as_bytes().len();
    let mut starts: Vec<usize> = Vec::new();
    let ghost expected = copy_rewrite(t, bv, direction);
    let mut i: usize = 0;
    while i < joined_starts.len()
        invariant
            i <= joined_starts@.len(),
            joined_starts@.len() == expected.starts.len(),
            tail == expected.text.len(),
            rewrite_wf(t, expected),
            forall|j: int|
                0 <= j < joined_starts@.len() ==> #[trigger] joined_starts@[j] + lead
                    == expected.starts[j],
            starts@.len() == i,
            forall|j: int| 0 <= j < i ==> #[trigger] starts@[j] == expected.starts[j],
        decreases joined_starts.len() - i,
    {
        assert(joined_starts@[i as int] + lead == expected.starts[i as int]);
        starts.push(joined_starts[i] + lead);
        i = i + 1;
    }
    assert(order::indices_view(starts@) =~= expected.starts);
    RewrittenBlock {
        first: block.first,
        last: block.last,
        start: offset,
        end: offset,
        text,
        starts,
        tail,
    }
}

/// Plans copying the lines that the selections cover.
pub fn plan_copy_lines(
    text: &Rope,
    selections: &[EditorSelection],
    direction: LineDirection,
) -> (plan: Option<EditPlan>)
    requires
        all_wf(selections@),
        plan_fits(rope::rope_bytes(*text).len() as int, selections@.len() as int),
    ensures
        match plan {
            Some(plan) => copy_plan(rope::rope_bytes(*text), selections@, direction) == Some(
                (plan.view_edits(), plan.selections_after@),
            ),
            None => copy_plan(rope::rope_bytes(*text), selections@, direction) is None,
        },
{
    let document = Document::new(rope::rope_to_string(text));
    let ghost t = document.bytes();
    let blocks = match selected_line_blocks(&document, selections, false) {
        Some(blocks) => blocks,
        None => {
            return None;
        },
    };
    let ghost bv = spans_view(blocks@);
    let mut rewrites: Vec<RewrittenBlock> = Vec::new();
    let mut k: usize = 0;
    while k < blocks.len()
        invariant
            document.wf(),
            t == document.bytes(),
            bv == spans_view(blocks@),
            blocks_apart(bv, 0, text::line_count(t)),
            k <= blocks@.len(),
            rewrites@.len() == k,
            forall|j: int|
                0 <= j < k ==> block_view(#[trigger] rewrites@[j]) == copy_rewrite(
                    t,
                    bv[j],
                    direction,
                ),
        decreases blocks.len() - k,
    {
        let block = blocks[k];
        assert(bv[k as int] == (block.first as int, block.last as int));
        rewrites.push(compose_copy(&document, block, direction));
        k = k + 1;
    }
    proof {
        assert(blocks_view(rewrites@) =~= copy_rewrites(t, bv, direction));
        lemma_copy_rewrites(t, bv, direction);
        lemma_plan_fits(
            t.len() as int,
            selections@.len() as int,
            rewrite_edits(blocks_view(rewrites@)),
        );
        assert forall|i: int| #![trigger selections@[i]] 0 <= i < selections@.len() implies selections@[i].range.start
            <= t.len() && selections@[i].range.end <= t.len() by {
            assert(comment::selection_rows(t, selections@[i]) is Some);
        }
    }
    finish_rewritten_blocks(&document, selections, rewrites)
}

/// The text that duplicating a selection inserts and where: an empty selection
/// duplicates its line, another its exact text. Then where the selection of the
/// duplicate starts and ends in that text.
pub open spec fn duplicate_of(t: Seq<u8>, selection: EditorSelection) -> (int, Seq<u8>, int, int) {
    let start = selection.range.start as int;
    let end = selection.range.end as int;
    if start == end {
        let head = selection.spec_head() as int;
        let row = text::row_at(t, head);
        let content = text::content_bytes(t, row);
        let column = edit::min_int(text::column_at(t, head), content.len() as int);
        let sep = line_ending(t);
        if row + 1 < text::line_count(t) {
            (text::line_start(t, row + 1), content + sep, column, column)
        } else {
            (t.len() as int, sep + content, sep.len() + column, sep.len() + column)
        }
    } else {
        (end, t.subrange(start, end), 0, end - start)
    }
}

pub open spec fn duplicate_edits(t: Seq<u8>, selections: Seq<EditorSelection>) -> Seq<
    (int, int, Seq<u8>),
> {
    Seq::new(
        selections.len(),
        |i: int|
            {
                let duplicate = duplicate_of(t, selections[i]);
                (duplicate.0, duplicate.0, duplicate.1)
            },
    )
}

/// The selection of the duplicate of selection `i`.
pub open spec fn duplicate_selection(
    t: Seq<u8>,
    selections: Seq<EditorSelection>,
    i: int,
) -> EditorSelection {
    let planned = duplicate_edits(t, selections);
    let sorted = edit::sorted_edits(planned);
    let order = order::sorted_order(edit::edit_keys(planned), planned.len() as int);
    let duplicate = duplicate_of(t, selections[i]);
    let post = comment::span_start(sorted, order, i);
    EditorSelection {
        range: crate::cursor::Selection {
            start: (post + duplicate.2) as usize,
            end: (post + duplicate.3) as usize,
        },
        reversed: selections[i].reversed && selections[i].range.start != selections[i].range.end,
    }
}

/// What duplicating selections plans.
pub open spec fn duplicate_plan(t: Seq<u8>, selections: Seq<EditorSelection>) -> Option<
    (Seq<(int, int, Seq<u8>)>, Seq<EditorSelection>),
> {
    if selections.len() == 0 || !comment::all_valid(t, selections, selections.len() as int) {
        None
    } else {
        Some(
            (
                edit::sorted_edits(duplicate_edits(t, selections)),
                Seq::new(selections.len(), |i: int| duplicate_selection(t, selections, i)),
            ),
        )
    }
}

proof fn lemma_duplicate_of(t: Seq<u8>, selection: EditorSelection)
    requires
        comment::is_valid_selection(t, selection),
    ensures
        ({
            let duplicate = duplicate_of(t, selection);
            &&& 0 <= duplicate.0 <= t.len()
            &&& duplicate.1.len() <= t.len() + 2
            &&& 0 <= duplicate.2 <= duplicate.3 <= duplicate.1.len()
        }),
{
    let head = selection.spec_head() as int;
    let row = text::row_at(t, head);
    text::lemma_row_at(t, head);
    text::lemma_line_end(t, row);
    text::lemma_line_start(t, row + 1);
}

/// The duplicate of one selection.
fn duplicate_one(document: &Document, selection: EditorSelection) -> (duplicate: (
    usize,
    String,
    usize,
    usize,
))
    requires
        document.wf(),
        comment::is_valid_selection(document.bytes(), selection),
    ensures
        duplicate_of(document.bytes(), selection) == (
            duplicate.0 as int,
            encode_utf8(duplicate.1@),
            duplicate.2 as int,
            duplicate.3 as int,
        ),
{
    let ghost t = document.bytes();
    proof {
        lemma_duplicate_of(t, selection);
        assert(encode_utf8(Seq::<char>::empty()) =~= Seq::<u8>::empty());
    }
    if selection.is_empty() {
        let ending = document_line_ending(document);
        let point = document.offset_to_point(selection.head());
        let content = document.line_content(point.row);
        let len = document.content_len(point.row);
        let column: usize = if point.column <= len {
            point.column
        } else {
            len
        };
        let mut text = String::new();
        if point.row < document.lines_len() - 1 {
            text::push_text(&mut text, content.as_str());
            text::push_text(&mut text, ending);
            assert(encode_utf8(text@) =~= duplicate_of(t, selection).1);
            (document.line_start_offset(point.row + 1), text, column, column)
        } else {
            text::push_text(&mut text, ending);
            text::push_text(&mut text, content.as_str());
            assert(encode_utf8(text@) =~= duplicate_of(t, selection).1);
            let lead: usize = ending.as_bytes().len();
            let total: usize = text.as_str().as_bytes().len();
            assert(lead + column <= total);
            (document.len(), text, lead + column, lead + column)
        }
    } else {
        let text = document.slice(selection.range.start, selection.range.end);
        (selection.range.end, text, 0, selection.range.end - selection.range.start)
    }
}

/// Plans duplicating each empty selection's line or each other selection's text.
pub fn plan_duplicate_selections(text: &Rope, selections: &[EditorSelection]) -> (plan: Option<
    EditPlan,
>)
    requires
        plan_fits(rope::rope_bytes(*text).len() as int, selections@.len() as int),
    ensures
        match plan {
            Some(plan) => duplicate_plan(rope::rope_bytes(*text), selections@) == Some(
                (plan.view_edits(), plan.selections_after@),
            ),
            None => duplicate_plan(rope::rope_bytes(*text), selections@) is None,
        },
{
    let document = Document::new(rope::rope_to_string(text));
    let ghost t = document.bytes();
    if selections.len() == 0 {
        return None;
    }
    let ghost dv = duplicate_edits(t, selections@);
    let mut planned: Vec<(Range<usize>, String)> = Vec::new();
    let mut relative: Vec<(usize, usize)> = Vec::new();
    let mut i: usize = 0;
    while i < selections.len()
        invariant
            document.wf(),
            t == document.bytes(),
            t == rope::rope_bytes(*text),
            dv == duplicate_edits(t, selections@),
            i <= selections@.len(),
            comment::all_valid(t, selections@, i as int),
            planned@.len() == i,
            relative@.len() == i,
            forall|k: int| 0 <= k < i ==> edit::edit_view(#[trigger] planned@[k]) == dv[k],
            forall|k: int|
                0 <= k < i ==> (#[trigger] relative@[k]).0 == duplicate_of(t, selections@[k]).2
                    && relative@[k].1 == duplicate_of(t, selections@[k]).3,
        decreases selections.len() - i,
    {
        if !comment::check_selection(&document, selections[i]) {
            return None;
        }
        let (offset, inserted, start, end) = duplicate_one(&document, selections[i]);
        planned.push((offset..offset, inserted));
        relative.push((start, end));
        i = i + 1;
    }
    assert(edit::edits_view(planned@) =~= dv);
    let (sorted, order) = edit::sort_edits(&planned);
    let ghost sv = edit::edits_view(sorted@);
    let ghost ov = order::indices_view(order@);
    proof {
        let keys = edit::edit_keys(dv);
        order::lemma_sorted_order(keys, dv.len() as int);
        assert forall|k: int| #![trigger sv[k]] 0 <= k < sv.len() implies 0 <= sv[k].0 <= sv[k].1
            <= t.len() && sv[k].2.len() <= 3 * t.len() + 8 && sv[k].0 == sv[k].1 by {
            assert(sv[k] == dv[ov[k]]);
            lemma_duplicate_of(t, selections@[ov[k]]);
        }
        assert forall|a: int, b: int| #![trigger sv[a], sv[b]] 0 <= a < b < sv.len() implies sv[a].1
            <= sv[b].0 by {
            assert(order::key_le(keys[ov[a]], keys[ov[b]]));
            assert(sv[a] == dv[ov[a]] && sv[b] == dv[ov[b]]);
        }
        assert(edit::edits_ordered(sv, t.len() as int));
        lemma_plan_fits(t.len() as int, selections@.len() as int, sv);
        assert forall|i: int, j: int|
            #![trigger order@[i], order@[j]]
            0 <= i < j < order@.len() implies order@[i] != order@[j] by {
            assert(ov[i] == order@[i] && ov[j] == order@[j]);
        }
    }
    let spans = comment::resolve_edit_spans(&sorted, &order);
    let mut selections_after: Vec<EditorSelection> = Vec::new();
    let mut j: usize = 0;
    while j < selections.len()
        invariant
            t == document.bytes(),
            dv == duplicate_edits(t, selections@),
            sv == edit::sorted_edits(dv),
            ov == order::sorted_order(edit::edit_keys(dv), dv.len() as int),
            order::is_stable_order(edit::edit_keys(dv), ov, dv.len() as int),
            comment::all_valid(t, selections@, selections@.len() as int),
            comment::spans_resolved(sv, ov, spans@),
            dv.len() == selections@.len(),
            relative@.len() == selections@.len(),
            forall|k: int|
                0 <= k < selections@.len() ==> (#[trigger] relative@[k]).0 == duplicate_of(
                    t,
                    selections@[k],
                ).2 && relative@[k].1 == duplicate_of(t, selections@[k]).3,
            j <= selections@.len(),
            selections_after@.len() == j,
            forall|k: int|
                0 <= k < j ==> #[trigger] selections_after@[k] == duplicate_selection(
                    t,
                    selections@,
                    k,
                ),
        decreases selections.len() - j,
    {
        proof {
            assert(ov.contains(j as int));
            let p = ov.index_of(j as int);
            assert(0 <= p < ov.len() && ov[p] == j);
            assert(sv[p] == dv[ov[p]]);
            lemma_duplicate_of(t, selections@[j as int]);
            assert(relative@[j as int].0 == duplicate_of(t, selections@[j as int]).2);
            assert(spans@[j as int].1 == spans@[j as int].0 + sv[p].2.len());
        }
        let selection = selections[j];
        selections_after.push(
            EditorSelection {
                range: crate::cursor::Selection::new(
                    spans[j].0 + relative[j].0,
                    spans[j].0 + relative[j].1,
                ),
                reversed: selection.reversed && !selection.is_empty(),
            },
        );
        j = j + 1;
    }
    proof {
        let expected = (duplicate_plan(t, selections@)->Some_0).1;
        assert(selections_after@ =~= expected);
    }
    Some(EditPlan { edits: sorted, selections_after })
}

/// The rows of the heads of the first `n` selections, ascending and each once.
pub open spec fn head_rows(t: Seq<u8>, selections: Seq<EditorSelection>, n: int) -> Seq<int>
    decreases n,
{
    if n <= 0 {
        Seq::empty()
    } else {
        order::with_key(
            head_rows(t, selections, n - 1),
            text::row_at(t, selections[n - 1].spec_head() as int),
        )
    }
}

/// The leading spaces and tabs of a row.
pub open spec fn leading_indentation(t: Seq<u8>, row: int) -> Seq<u8> {
    let line = text::line_bytes(t, row);
    line.subrange(0, comment::indentation_len(line))
}

/// The line inserted next to a row: where, its text, and where the caret lies in it.
pub open spec fn inserted_line(t: Seq<u8>, row: int, direction: InsertLineDirection) -> (
    int,
    Seq<u8>,
    int,
) {
    let indent = leading_indentation(t, row);
    let sep = line_ending(t);
    match direction {
        InsertLineDirection::Above => (
            text::line_start(t, row),
            indent + sep,
            indent.len() as int,
        ),
        InsertLineDirection::Below => if row + 1 < text::line_count(t) {
            (text::line_start(t, row + 1), indent + sep, indent.len() as int)
        } else {
            (t.len() as int, sep + indent, (sep.len() + indent.len()) as int)
        },
    }
}

pub open spec fn insert_edits(t: Seq<u8>, rows: Seq<int>, direction: InsertLineDirection) -> Seq<
    (int, int, Seq<u8>),
> {
    Seq::new(
        rows.len(),
        |k: int|
            {
                let line = inserted_line(t, rows[k], direction);
                (line.0, line.0, line.1)
            },
    )
}

/// Where the caret of the line inserted next to the `k`-th row comes to lie.
pub open spec fn insert_caret(
    t: Seq<u8>,
    rows: Seq<int>,
    direction: InsertLineDirection,
    k: int,
) -> int {
    let line = inserted_line(t, rows[k], direction);
    line.0 + edit::added(insert_edits(t, rows, direction), k) + line.2
}

/// What inserting lines plans: one line for each distinct row of a head.
pub open spec fn insert_plan(
    t: Seq<u8>,
    selections: Seq<EditorSelection>,
    direction: InsertLineDirection,
) -> Option<(Seq<(int, int, Seq<u8>)>, Seq<EditorSelection>)> {
    let rows = head_rows(t, selections, selections.len() as int);
    if selections.len() == 0 {
        None
    } else {
        Some(
            (
                insert_edits(t, rows, direction),
                Seq::new(
                    selections.len(),
                    |i: int|
                        cursor::spec_caret(
                            insert_caret(
                                t,
                                rows,
                                direction,
                                rows.index_of(
                                    text::row_at(t, selections[i].spec_head() as int),
                                ),
                            ) as usize,
                        ),
                ),
            ),
        )
    }
}

proof fn lemma_inserted_line(t: Seq<u8>, row: int, direction: InsertLineDirection)
    requires
        0 <= row < text::line_count(t),
    ensures
        ({
            let line = inserted_line(t, row, direction);
            &&& 0 <= line.0 <= t.len()
            &&& line.1.len() <= t.len() + 2
            &&& 0 <= line.2 <= line.1.len()
        }),
        0 <= comment::indentation_len(text::line_bytes(t, row)) <= text::line_bytes(t, row).len(),
{
    text::lemma_line_end(t, row);
    text::lemma_line_start(t, row + 1);
    comment::lemma_blank_end(text::line_bytes(t, row), 0);
}

/// The inserted lines lie one after the other.
proof fn lemma_insert_edits(t: Seq<u8>, rows: Seq<int>, direction: InsertLineDirection)
    requires
        order::is_ascending(rows),
        forall|k: int| #![trigger rows[k]] 0 <= k < rows.len() ==> 0 <= rows[k] < text::line_count(t),
    ensures
        edit::edits_ordered(insert_edits(t, rows, direction), t.len() as int),
        edits_limited(insert_edits(t, rows, direction), t.len() as int + 2),
{
    let edits = insert_edits(t, rows, direction);
    assert forall|k: int| #![trigger edits[k]] 0 <= k < edits.len() implies 0 <= edits[k].0
        <= edits[k].1 <= t.len() && edits[k].2.len() <= t.len() + 2 by {
        lemma_inserted_line(t, rows[k], direction);
    }
    assert forall|a: int, b: int| #![trigger edits[a], edits[b]] 0 <= a < b < edits.len() implies edits[a].1
        <= edits[b].0 by {
        assert(rows[a] < rows[b]);
        text::lemma_line_start_monotonic(t, rows[a], rows[b]);
        text::lemma_line_start_monotonic(t, rows[a] + 1, rows[b] + 1);
        text::lemma_line_start(t, rows[a] + 1);
    }
}

/// The line inserted next to a row.
fn compose_inserted_line(document: &Document, row: usize, direction: InsertLineDirection) -> (line:
    (usize, String, usize))
    requires
        document.wf(),
        row < text::line_count(document.bytes()),
    ensures
        inserted_line(document.bytes(), row as int, direction) == (
            line.0 as int,
            encode_utf8(line.1@),
            line.2 as int,
        ),
{
    let ghost t = document.bytes();
    proof {
        document.lemma_wf();
        lemma_inserted_line(t, row as int, direction);
        text::lemma_line_boundaries(t, row as int);
        text::lemma_line_end(t, row as int);
        assert(encode_utf8(Seq::<char>::empty()) =~= Seq::<u8>::empty());
    }
    let start = document.line_start_offset(row);
    let end = document.line_end_offset(row);
    let line = vstd::slice::slice_subrange(document.as_bytes(), start, end);
    let len = comment::find_indentation(line);
    proof {
        let e = start + len;
        comment::lemma_blank_end(line@, 0);
        if len > 0 {
            assert(line@[len - 1] == t[e - 1]);
            text::lemma_boundary_after_ascii(t, e - 1);
        }
        assert(t.subrange(start as int, e) =~= leading_indentation(t, row as int));
    }
    let indent = document.slice(start, start + len);
    let ending = document_line_ending(document);
    let mut text = String::new();
    match direction {
        InsertLineDirection::Above => {
            text::push_text(&mut text, indent.as_str());
            text::push_text(&mut text, ending);
            assert(encode_utf8(text@) =~= inserted_line(t, row as int, direction).1);
            (start, text, len)
        },
        InsertLineDirection::Below => if row < document.lines_len() - 1 {
            text::push_text(&mut text, indent.as_str());
            text::push_text(&mut text, ending);
            assert(encode_utf8(text@) =~= inserted_line(t, row as int, direction).1);
            (document.line_start_offset(row + 1), text, len)
        } else {
            text::push_text(&mut text, ending);
            text::push_text(&mut text, indent.as_str());
            assert(encode_utf8(text@) =~= inserted_line(t, row as int, direction).1);
            let total: usize = text.as_str().as_bytes().len();
            (document.len(), text, total)
        },
    }
}

/// Plans inserting one indented line next to every distinct active line.
pub fn plan_insert_lines(
    text: &Rope,
    selections: &[EditorSelection],
    direction: InsertLineDirection,
) -> (plan: Option<EditPlan>)
    requires
        plan_fits(rope::rope_bytes(*text).len() as int, selections@.len() as int),
    ensures
        match plan {
            Some(plan) => insert_plan(rope::rope_bytes(*text), selections@, direction) == Some(
                (plan.view_edits(), plan.selections_after@),
            ),
            None => insert_plan(rope::rope_bytes(*text), selections@, direction) is None,
        },
{
    let document = Document::new(rope::rope_to_string(text));
    let ghost t = document.bytes();
    if selections.len() == 0 {
        return None;
    }
    let mut rows: Vec<usize> = Vec::new();
    let mut i: usize = 0;
    assert(order::indices_view(rows@) =~= head_rows(t, selections@, 0));
    while i < selections.len()
        invariant
            document.wf(),
            t == document.bytes(),
            i <= selections@.len(),
            rows@.len() <= i,
            order::indices_view(rows@) == head_rows(t, selections@, i as int),
            order::is_ascending(order::indices_view(rows@)),
            forall|y: int|
                #[trigger] order::indices_view(rows@).contains(y) ==> 0 <= y < text::line_count(t),
            forall|k: int|
                #![trigger selections@[k]]
                0 <= k < i ==> order::indices_view(rows@).contains(
                    text::row_at(t, selections@[k].spec_head() as int),
                ),
        decreases selections.len() - i,
    {
        let row = document.offset_to_point(selections[i].head()).row;
        order::insert_key(&mut rows, row);
        i = i + 1;
    }
    let ghost rv = order::indices_view(rows@);
    let ghost ev = insert_edits(t, rv, direction);
    proof {
        assert forall|k: int| #![trigger rv[k]] 0 <= k < rv.len() implies 0 <= rv[k]
            < text::line_count(t) by {
            assert(rv.contains(rv[k]));
        }
        lemma_insert_edits(t, rv, direction);
        lemma_plan_fits(t.len() as int, selections@.len() as int, ev);
    }
    let mut edits: Vec<(Range<usize>, String)> = Vec::new();
    let mut carets: Vec<usize> = Vec::new();
    let mut more: usize = 0;
    let mut k: usize = 0;
    while k < rows.len()
        invariant
            document.wf(),
            t == document.bytes(),
            rv == order::indices_view(rows@),
            ev == insert_edits(t, rv, direction),
            forall|k: int| #![trigger rv[k]] 0 <= k < rv.len() ==> 0 <= rv[k] < text::line_count(t),
            edit::edits_ordered(ev, t.len() as int),
            t.len() + edit::added(ev, ev.len() as int) <= usize::MAX,
            k <= rows@.len(),
            edits@.len() == k,
            carets@.len() == k,
            more == edit::added(ev, k as int),
            forall|j: int| 0 <= j < k ==> edit::edit_view(#[trigger] edits@[j]) == ev[j],
            forall|j: int|
                0 <= j < k ==> #[trigger] carets@[j] == insert_caret(t, rv, direction, j),
        decreases rows.len() - k,
    {
        assert(rv[k as int] == rows@[k as int]);
        proof {
            edit::lemma_added_monotonic(ev, k + 1, ev.len() as int);
            lemma_inserted_line(t, rv[k as int], direction);
        }
        let (offset, inserted, within) = compose_inserted_line(&document, rows[k], direction);
        carets.push(offset + more + within);
        more = more + inserted.as_str().as_bytes().len();
        edits.push((offset..offset, inserted));
        k = k + 1;
    }
    assert(edit::edits_view(edits@) =~= ev);
    let mut selections_after: Vec<EditorSelection> = Vec::new();
    let mut s: usize = 0;
    while s < selections.len()
        invariant
            document.wf(),
            t == document.bytes(),
            rv == order::indices_view(rows@),
            order::is_ascending(rv),
            carets@.len() == rows@.len(),
            forall|j: int|
                0 <= j < rows@.len() ==> #[trigger] carets@[j] == insert_caret(t, rv, direction, j),
            forall|k: int|
                #![trigger selections@[k]]
                0 <= k < selections@.len() ==> rv.contains(
                    text::row_at(t, selections@[k].spec_head() as int),
                ),
            s <= selections@.len(),
            selections_after@.len() == s,
            forall|j: int|
                #![trigger selections_after@[j]]
                0 <= j < s ==> selections_after@[j] == cursor::spec_caret(
                    insert_caret(
                        t,
                        rv,
                        direction,
                        rv.index_of(text::row_at(t, selections@[j].spec_head() as int)),
                    ) as usize,
                ),
        decreases selections.len() - s,
    {
        let row = document.offset_to_point(selections[s].head()).row;
        let ghost at = rv.index_of(row as int);
        proof {
            assert(rv.contains(row as int));
            assert(0 <= at < rv.len() && rv[at] == row);
            assert(rv[at] == rows@[at]);
        }
        let mut k: usize = 0;
        while rows[k] != row
            invariant
                k <= at < rows@.len(),
                rv == order::indices_view(rows@),
                rv[at] == row,
            decreases at - k,
        {
            assert(rv[at] == rows@[at]);
            assert(rows.len() == rows@.len());
            assert(k != at);
            k = k + 1;
        }
        proof {
            assert(rv[k as int] == rows@[k as int]);
            if k < at {
                assert(rv[k as int] < rv[at]);
            }
            assert(carets@[k as int] == insert_caret(t, rv, direction, at));
        }
        selections_after.push(EditorSelection::caret(carets[k]));
        s = s + 1;
    }
    proof {
        let expected = (insert_plan(t, selections@, direction)->Some_0).1;
        assert(selections_after@ =~= expected);
    }
    Some(EditPlan { edits, selections_after })
}

/// A single selection within one row stands for the whole document.
pub open spec fn expands_to_document(t: Seq<u8>, selections: Seq<EditorSelection>) -> bool {
    selections.len() == 1 && text::row_at(t, selections[0].range.start as int) == text::row_at(
        t,
        selections[0].range.end as int,
    )
}

/// Number of rows in the first `n` blocks.
pub open spec fn rows_total(blocks: Seq<(int, int)>, n: int) -> int
    decreases n,
{
    if n <= 0 {
        0
    } else {
        rows_total(blocks, n - 1) + (blocks[n - 1].1 - blocks[n - 1].0 + 1)
    }
}

/// The range of a block of rows without the ending of its last row.
pub open spec fn block_range(t: Seq<u8>, block: (int, int)) -> (int, int) {
    (
        text::line_start(t, block.0),
        text::line_start(t, block.1) + text::content_bytes(t, block.1).len(),
    )
}

/// The rows from `last` up to `first`.
pub open spec fn reversed_rows(first: int, last: int) -> Seq<int> {
    if last < first {
        Seq::empty()
    } else {
        Seq::new((last - first + 1) as nat, |i: int| last - i)
    }
}

/// The rows that reversing turns around for a selection. An empty last line of
/// the document stays where it is.
pub open spec fn reverse_rows_of(
    t: Seq<u8>,
    selections: Seq<EditorSelection>,
    i: int,
) -> (int, int) {
    let last_row = text::line_count(t) - 1;
    let rows = if expands_to_document(t, selections) {
        (0int, last_row)
    } else {
        comment::selection_rows(t, selections[i])->Some_0
    };
    if rows.1 == last_row && text::content_bytes(t, last_row).len() == 0 && rows.0 < last_row {
        (rows.0, last_row - 1)
    } else {
        rows
    }
}

pub open spec fn reverse_blocks(t: Seq<u8>, selections: Seq<EditorSelection>) -> Seq<(int, int)> {
    Seq::new(selections.len(), |i: int| reverse_rows_of(t, selections, i))
}

/// The rows of a block from the last to the first.
pub open spec fn reversed_text(t: Seq<u8>, block: (int, int)) -> Seq<u8> {
    let rows = reversed_rows(block.0, block.1);
    joined(t, rows, line_ending(t), rows.len() as int)
}

pub open spec fn reverse_edits(t: Seq<u8>, blocks: Seq<(int, int)>) -> Seq<(int, int, Seq<u8>)> {
    Seq::new(
        blocks.len(),
        |i: int| (block_range(t, blocks[i]).0, block_range(t, blocks[i]).1, reversed_text(t, blocks[i])),
    )
}

/// Where an offset comes to lie when its block is reversed: with its row, in
/// the same column.
pub open spec fn reversed_offset(t: Seq<u8>, block: (int, int), offset: int) -> int {
    let row = text::row_at(t, offset);
    if block.0 <= row <= block.1 {
        let content = text::content_bytes(t, row);
        let column = edit::min_int(text::column_at(t, offset), content.len() as int);
        text::line_start(t, block.0) + joined_start(
            t,
            reversed_rows(block.0, block.1),
            line_ending(t),
            block.1 - row,
        ) + text::floor_boundary(content, column)
    } else {
        offset
    }
}

/// What reversing lines plans: nothing without a selection, where one is no
/// range of the text, beyond the bound on rows, or where two blocks overlap.
pub open spec fn reverse_plan(t: Seq<u8>, selections: Seq<EditorSelection>) -> Option<
    (Seq<(int, int, Seq<u8>)>, Seq<EditorSelection>),
> {
    let n = selections.len() as int;
    let blocks = reverse_blocks(t, selections);
    let sorted = edit::sorted_edits(reverse_edits(t, blocks));
    if n == 0 || !comment::all_valid(t, selections, n) || rows_total(blocks, n) > MAX_REORDER_LINES
        || edit::has_overlap(sorted) {
        None
    } else {
        Some(
            (
                sorted,
                Seq::new(
                    selections.len(),
                    |i: int|
                        cursor::spec_from_anchor_and_head(
                            reversed_offset(
                                t,
                                blocks[i],
                                selections[i].spec_anchor() as int,
                            ) as usize,
                            reversed_offset(
                                t,
                                blocks[i],
                                selections[i].spec_head() as int,
                            ) as usize,
                        ),
                ),
            ),
        )
    }
}

pub(crate) proof fn lemma_rows_total(blocks: Seq<(int, int)>, a: int, b: int)
    requires
        0 <= a <= b <= blocks.len(),
        forall|i: int| #![trigger blocks[i]] 0 <= i < blocks.len() ==> blocks[i].0 <= blocks[i].1,
    ensures
        0 <= rows_total(blocks, a) <= rows_total(blocks, b),
    decreases b,
{
    if a < b {
        lemma_rows_total(blocks, a, b - 1);
    } else if a > 0 {
        lemma_rows_total(blocks, a - 1, b - 1);
    }
}

pub(crate) proof fn lemma_block_range(t: Seq<u8>, block: (int, int))
    requires
        0 <= block.0 <= block.1 < text::line_count(t),
    ensures
        0 <= block_range(t, block).0 <= block_range(t, block).1 <= t.len(),
{
    text::lemma_line_start(t, block.0);
    text::lemma_line_end(t, block.1);
    text::lemma_line_start_monotonic(t, block.0, block.1);
}

/// Reversing does not change the weight of rows.
proof fn lemma_reversed_weight(t: Seq<u8>, first: int, last: int, n: int)
    requires
        0 <= n <= last - first + 1,
    ensures
        weight(t, reversed_rows(first, last), n) == rows_weight(t, last - n + 1, last),
    decreases n,
{
    if n > 0 {
        lemma_reversed_weight(t, first, last, n - 1);
        lemma_rows_weight_split(t, last - n + 1, last);
    }
}

/// A reversed block is no longer than twice the text, and its rows lie in it.
proof fn lemma_reversed_text(t: Seq<u8>, block: (int, int))
    requires
        0 <= block.0 <= block.1 < text::line_count(t),
    ensures
        reversed_text(t, block).len() <= 2 * t.len() + 2,
        forall|row: int|
            block.0 <= row <= block.1 ==> 0 <= #[trigger] joined_start(
                t,
                reversed_rows(block.0, block.1),
                line_ending(t),
                block.1 - row,
            ) && joined_start(
                t,
                reversed_rows(block.0, block.1),
                line_ending(t),
                block.1 - row,
            ) + text::content_bytes(t, row).len() <= reversed_text(t, block).len(),
{
    let rows = reversed_rows(block.0, block.1);
    let sep = line_ending(t);
    let n = rows.len() as int;
    lemma_joined_weight(t, rows, sep, n);
    lemma_reversed_weight(t, block.0, block.1, n);
    lemma_rows_weight(t, block.0, block.1);
    text::lemma_line_start(t, block.0);
    assert forall|row: int| block.0 <= row <= block.1 implies 0 <= #[trigger] joined_start(
        t,
        rows,
        sep,
        block.1 - row,
    ) && joined_start(t, rows, sep, block.1 - row) + text::content_bytes(t, row).len()
        <= reversed_text(t, block).len() by {
        lemma_joined_start(t, rows, sep, block.1 - row, n);
        assert(rows[block.1 - row] == row);
    }
}

/// Whether every selection is a range of the text.
pub(crate) fn check_selections(document: &Document, selections: &[EditorSelection]) -> (valid: bool)
    requires
        document.wf(),
    ensures
        valid == comment::all_valid(document.bytes(), selections@, selections@.len() as int),
{
    let mut i: usize = 0;
    while i < selections.len()
        invariant
            document.wf(),
            i <= selections@.len(),
            comment::all_valid(document.bytes(), selections@, i as int),
        decreases selections.len() - i,
    {
        if !comment::check_selection(document, selections[i]) {
            return false;
        }
        i = i + 1;
    }
    true
}

pub(crate) fn check_expands(document: &Document, selections: &[EditorSelection]) -> (expands: bool)
    requires
        document.wf(),
    ensures
        expands == expands_to_document(document.bytes(), selections@),
{
    selections.len() == 1 && document.offset_to_point(selections[0].range.start).row
        == document.offset_to_point(selections[0].range.end).row
}

/// The rows of a selection that is a range of the text.
fn valid_selection_rows(document: &Document, selection: EditorSelection) -> (rows: RowSpan)
    requires
        document.wf(),
        comment::is_valid_selection(document.bytes(), selection),
    ensures
        comment::selection_rows(document.bytes(), selection) == Some(
            (rows.first as int, rows.last as int),
        ),
        rows.first <= rows.last < text::line_count(document.bytes()),
{
    proof {
        lemma_selection_rows(document.bytes(), selection);
    }
    match comment::selection_line_range(document, selection) {
        Some(rows) => rows,
        None => RowSpan { first: 0, last: 0 },
    }
}

/// The rows from `last` up to `first`.
fn collect_reversed_rows(first: usize, last: usize) -> (rows: Vec<usize>)
    requires
        first <= last < usize::MAX,
    ensures
        order::indices_view(rows@) == reversed_rows(first as int, last as int),
{
    let mut rows: Vec<usize> = Vec::new();
    let count: usize = last - first + 1;
    let mut i: usize = 0;
    while i < count
        invariant
            i <= count,
            first <= last < usize::MAX,
            count == last - first + 1,
            rows@.len() == i,
            forall|k: int| 0 <= k < i ==> #[trigger] rows@[k] == last - k,
        decreases count - i,
    {
        rows.push(last - i);
        i = i + 1;
    }
    assert(order::indices_view(rows@) =~= reversed_rows(first as int, last as int));
    rows
}

/// The greatest boundary of `bytes` at or before `offset`.
pub(crate) fn floor_of(bytes: &[u8], offset: usize) -> (floor: usize)
    requires
        offset <= bytes@.len(),
    ensures
        floor == text::floor_boundary(bytes@, offset as int),
        floor <= offset,
{
    if offset >= bytes.len() {
        return bytes.len();
    }
    let mut o: usize = offset;
    while o > 0 && bytes[o] >= 0x80 && bytes[o] < 0xc0
        invariant
            o <= offset,
            o < bytes.len(),
            text::floor_boundary(bytes@, o as int) == text::floor_boundary(
                bytes@,
                offset as int,
            ),
        decreases o,
    {
        o = o - 1;
    }
    o
}

/// Where an offset comes to lie when its block is reversed.
fn map_reversed_offset(
    document: &Document,
    block: RowSpan,
    starts: &Vec<usize>,
    offset: usize,
) -> (moved: usize)
    requires
        document.wf(),
        block.first <= block.last < text::line_count(document.bytes()),
        3 * document.bytes().len() + 8 <= usize::MAX,
        starts@.len() == block.last - block.first + 1,
        forall|k: int|
            0 <= k < starts@.len() ==> #[trigger] starts@[k] == joined_start(
                document.bytes(),
                reversed_rows(block.first as int, block.last as int),
                line_ending(document.bytes()),
                k,
            ),
    ensures
        moved == reversed_offset(
            document.bytes(),
            (block.first as int, block.last as int),
            offset as int,
        ),
{
    let ghost t = document.bytes();
    let point = document.offset_to_point(offset);
    if point.row < block.first || point.row > block.last {
        return offset;
    }
    proof {
        lemma_reversed_text(t, (block.first as int, block.last as int));
        text::lemma_line_start(t, block.first as int);
    }
    let content = document.line_content(point.row);
    let bytes = content.as_str().as_bytes();
    let column: usize = if point.column <= bytes.len() {
        point.column
    } else {
        bytes.len()
    };
    let floor = floor_of(bytes, column);
    let k: usize = block.last - point.row;
    assert(starts@[k as int] == joined_start(
        t,
        reversed_rows(block.first as int, block.last as int),
        line_ending(t),
        block.last - point.row as int,
    ));
    document.line_start_offset(block.first) + starts[k] + floor
}

/// Plans reversing the lines of each selection, or of the whole document.
pub fn plan_reverse_lines(text: &Rope, selections: &[EditorSelection]) -> (plan: Option<EditPlan>)
    requires
        plan_fits(rope::rope_bytes(*text).len() as int, selections@.len() as int),
    ensures
        match plan {
            Some(plan) => reverse_plan(rope::rope_bytes(*text), selections@) == Some(
                (plan.view_edits(), plan.selections_after@),
            ),
            None => reverse_plan(rope::rope_bytes(*text), selections@) is None,
        },
{
    let document = Document::new(rope::rope_to_string(text));
    let ghost t = document.bytes();
    let ghost n = selections@.len() as int;
    if selections.len() == 0 || !check_selections(&document, selections) {
        return None;
    }
    proof {
        document.lemma_wf();
        assert(3 * t.len() + 8 <= (n + 1) * (3 * t.len() + 8)) by (nonlinear_arith)
            requires
                n >= 0,
        ;
    }
    let expands = check_expands(&document, selections);
    let last_row: usize = document.lines_len() - 1;
    let last_is_empty = document.content_len(last_row) == 0;
    let ending = document_line_ending(&document);
    let ghost bv = reverse_blocks(t, selections@);
    let ghost ev = reverse_edits(t, bv);
    proof {
        assert forall|i: int| #![trigger bv[i]] 0 <= i < bv.len() implies 0 <= bv[i].0 <= bv[i].1
            < text::line_count(t) by {
            lemma_selection_rows(t, selections@[i]);
        }
    }
    let mut planned: Vec<(Range<usize>, String)> = Vec::new();
    let mut selections_after: Vec<EditorSelection> = Vec::new();
    let mut total: usize = 0;
    let mut i: usize = 0;
    while i < selections.len()
        invariant
            document.wf(),
            t == document.bytes(),
            t == rope::rope_bytes(*text),
            n == selections@.len(),
            n > 0,
            3 * t.len() + 8 <= usize::MAX,
            comment::all_valid(t, selections@, n),
            expands == expands_to_document(t, selections@),
            last_row == text::line_count(t) - 1,
            last_is_empty == (text::content_bytes(t, last_row as int).len() == 0),
            encode_utf8(ending@) == line_ending(t),
            bv == reverse_blocks(t, selections@),
            ev == reverse_edits(t, bv),
            forall|i: int|
                #![trigger bv[i]]
                0 <= i < bv.len() ==> 0 <= bv[i].0 <= bv[i].1 < text::line_count(t),
            text::line_count(t) <= usize::MAX,
            i <= selections@.len(),
            total == rows_total(bv, i as int),
            total <= MAX_REORDER_LINES,
            planned@.len() == i,
            selections_after@.len() == i,
            forall|k: int| 0 <= k < i ==> edit::edit_view(#[trigger] planned@[k]) == ev[k],
            forall|k: int|
                #![trigger selections_after@[k]]
                0 <= k < i ==> selections_after@[k] == cursor::spec_from_anchor_and_head(
                    reversed_offset(t, bv[k], selections@[k].spec_anchor() as int) as usize,
                    reversed_offset(t, bv[k], selections@[k].spec_head() as int) as usize,
                ),
        decreases selections.len() - i,
    {
        let selection = selections[i];
        assert(comment::is_valid_selection(t, selections@[i as int]));
        let mut rows = if expands {
            RowSpan { first: 0, last: last_row }
        } else {
            valid_selection_rows(&document, selection)
        };
        if rows.last == last_row && last_is_empty && rows.first < last_row {
            rows = RowSpan { first: rows.first, last: last_row - 1 };
        }
        assert(bv[i as int] == (rows.first as int, rows.last as int));
        let count: usize = rows.last - rows.first + 1;
        proof {
            lemma_rows_total(bv, i + 1, bv.len() as int);
            lemma_block_range(t, bv[i as int]);
        }
        if count > MAX_REORDER_LINES - total {
            return None;
        }
        total = total + count;
        let start = document.line_start_offset(rows.first);
        let end: usize = document.line_start_offset(rows.last) + document.content_len(rows.last);
        let order = collect_reversed_rows(rows.first, rows.last);
        let (replacement, starts) = join_rows(&document, &order, ending);
        assert(order@.len() == reversed_rows(rows.first as int, rows.last as int).len());
        let anchor = map_reversed_offset(&document, rows, &starts, selection.anchor());
        let head = map_reversed_offset(&document, rows, &starts, selection.head());
        planned.push((start..end, replacement));
        selections_after.push(EditorSelection::from_anchor_and_head(anchor, head));
        i = i + 1;
    }
    assert(edit::edits_view(planned@) =~= ev);
    let (sorted, _) = edit::sort_edits(&planned);
    if edit::edits_overlap(&sorted) {
        return None;
    }
    proof {
        let expected = (reverse_plan(t, selections@)->Some_0).1;
        assert(selections_after@ =~= expected);
    }
    Some(EditPlan { edits: sorted, selections_after })
}

/// The rows that sorting orders for a selection. An empty last line of the
/// document stays where it is.
pub open spec fn sort_rows_of(t: Seq<u8>, selections: Seq<EditorSelection>, i: int) -> (int, int) {
    let last_row = text::line_count(t) - 1;
    if expands_to_document(t, selections) {
        if last_row > 0 && text::content_bytes(t, last_row).len() == 0 {
            (0, last_row - 1)
        } else {
            (0, last_row)
        }
    } else {
        comment::selection_rows(t, selections[i])->Some_0
    }
}

pub open spec fn sort_blocks(t: Seq<u8>, selections: Seq<EditorSelection>) -> Seq<(int, int)> {
    Seq::new(selections.len(), |i: int| sort_rows_of(t, selections, i))
}

/// The rows of a block in the given order, or from last to first of it.
pub open spec fn ordered_rows(block: (int, int), order: Seq<int>, descending: bool) -> Seq<int> {
    Seq::new(
        order.len(),
        |i: int|
            block.0 + if descending {
                order[order.len() - 1 - i]
            } else {
                order[i]
            },
    )
}

/// Whether the given rows read the same as the rows of the block as they stand.
pub open spec fn reads_the_same(t: Seq<u8>, block: (int, int), rows: Seq<int>) -> bool {
    forall|i: int|
        #![trigger rows[i]]
        0 <= i < rows.len() ==> text::content_bytes(t, block.0 + i) == text::content_bytes(
            t,
            rows[i],
        )
}

pub open spec fn sort_edits_of(
    t: Seq<u8>,
    blocks: Seq<(int, int)>,
    orders: Seq<Seq<int>>,
    descending: bool,
) -> Seq<(int, int, Seq<u8>)> {
    Seq::new(
        blocks.len(),
        |i: int|
            {
                let rows = ordered_rows(blocks[i], orders[i], descending);
                (
                    block_range(t, blocks[i]).0,
                    block_range(t, blocks[i]).1,
                    joined(t, rows, line_ending(t), rows.len() as int),
                )
            },
    )
}

/// Where an offset comes to lie when a block is written anew without moving:
/// at the same distance from its start as far as the new text reaches.
pub open spec fn pinned_offset(edit: (int, int, Seq<u8>), offset: int) -> int {
    if offset < edit.0 || offset > edit.1 {
        offset
    } else {
        edit.0 + text::floor_boundary(
            edit.2,
            edit::min_int(offset - edit.0, edit.2.len() as int),
        )
    }
}

/// Whether sorting has something to do for each of the first `n` blocks: two
/// rows at least, in another order than they stand in.
pub open spec fn all_sortable(
    t: Seq<u8>,
    blocks: Seq<(int, int)>,
    orders: Seq<Seq<int>>,
    descending: bool,
    n: int,
) -> bool {
    forall|i: int|
        #![trigger blocks[i]]
        0 <= i < n ==> blocks[i].0 < blocks[i].1 && !reads_the_same(
            t,
            blocks[i],
            ordered_rows(blocks[i], orders[i], descending),
        )
}

/// What sorting lines plans, given for each selection the order of its rows.
/// The whole action is refused where one selection has nothing to sort.
pub open spec fn sort_plan(
    t: Seq<u8>,
    selections: Seq<EditorSelection>,
    orders: Seq<Seq<int>>,
    descending: bool,
) -> Option<(Seq<(int, int, Seq<u8>)>, Seq<EditorSelection>)> {
    let n = selections.len() as int;
    let blocks = sort_blocks(t, selections);
    let edits = sort_edits_of(t, blocks, orders, descending);
    let sorted = edit::sorted_edits(edits);
    if n == 0 || !comment::all_valid(t, selections, n) || !all_sortable(
        t,
        blocks,
        orders,
        descending,
        n,
    ) || rows_total(blocks, n) > MAX_REORDER_LINES || edit::has_overlap(sorted) {
        None
    } else {
        Some(
            (
                sorted,
                Seq::new(
                    selections.len(),
                    |i: int|
                        cursor::spec_from_anchor_and_head(
                            pinned_offset(edits[i], selections[i].spec_anchor() as int) as usize,
                            pinned_offset(edits[i], selections[i].spec_head() as int) as usize,
                        ),
                ),
            ),
        )
    }
}

/// An order of the rows of a block: each number below their count once.
pub open spec fn is_row_order(block: (int, int), order: Seq<int>) -> bool {
    order.len() == block.1 - block.0 + 1 && forall|k: int|
        #![trigger order[k]]
        0 <= k < order.len() ==> 0 <= order[k] < order.len()
}

/// Where an offset comes to lie when a block is written anew without moving.
pub(crate) fn pin_offset(start: usize, end: usize, text: &str, offset: usize) -> (moved: usize)
    requires
        start <= end,
    ensures
        moved == pinned_offset((start as int, end as int, encode_utf8(text@)), offset as int),
{
    if offset < start || offset > end {
        return offset;
    }
    let bytes = text.as_bytes();
    let relative: usize = if offset - start <= bytes.len() {
        offset - start
    } else {
        bytes.len()
    };
    start + floor_of(bytes, relative)
}

/// The rows that sorting orders for each selection.
fn find_sort_rows(
    document: &Document,
    selections: &[EditorSelection],
    expands: bool,
    i: usize,
) -> (rows: RowSpan)
    requires
        document.wf(),
        i < selections@.len(),
        comment::is_valid_selection(document.bytes(), selections@[i as int]),
        expands == expands_to_document(document.bytes(), selections@),
    ensures
        sort_rows_of(document.bytes(), selections@, i as int) == (
            rows.first as int,
            rows.last as int,
        ),
        rows.first <= rows.last < text::line_count(document.bytes()),
{
    if expands {
        let last_row: usize = document.lines_len() - 1;
        if last_row > 0 && document.content_len(last_row) == 0 {
            RowSpan { first: 0, last: last_row - 1 }
        } else {
            RowSpan { first: 0, last: last_row }
        }
    } else {
        valid_selection_rows(document, selections[i])
    }
}

/// The rows of a block in the given order, or from last to first of it.
fn arrange_rows(block: RowSpan, order: &Vec<usize>, descending: bool) -> (rows: Vec<usize>)
    requires
        block.first <= block.last < usize::MAX,
        order@.len() == block.last - block.first + 1,
        forall|k: int| 0 <= k < order@.len() ==> #[trigger] order@[k] < order@.len(),
    ensures
        order::indices_view(rows@) == ordered_rows(
            (block.first as int, block.last as int),
            order::indices_view(order@),
            descending,
        ),
{
    let mut rows: Vec<usize> = Vec::new();
    let mut i: usize = 0;
    while i < order.len()
        invariant
            block.first <= block.last < usize::MAX,
            order@.len() == block.last - block.first + 1,
            forall|k: int| 0 <= k < order@.len() ==> #[trigger] order@[k] < order@.len(),
            i <= order@.len(),
            rows@.len() == i,
            forall|k: int|
                0 <= k < i ==> #[trigger] rows@[k] == block.first + (if descending {
                    order@[order@.len() - 1 - k]
                } else {
                    order@[k]
                }),
        decreases order.len() - i,
    {
        let at: usize = if descending {
            order[order.len() - 1 - i]
        } else {
            order[i]
        };
        rows.push(block.first + at);
        i = i + 1;
    }
    assert(order::indices_view(rows@) =~= ordered_rows(
        (block.first as int, block.last as int),
        order::indices_view(order@),
        descending,
    ));
    rows
}

fn check_reads_the_same(document: &Document, block: RowSpan, rows: &Vec<usize>) -> (same: bool)
    requires
        document.wf(),
        block.first <= block.last < text::line_count(document.bytes()),
        rows@.len() <= block.last - block.first + 1,
    ensures
        same == reads_the_same(
            document.bytes(),
            (block.first as int, block.last as int),
            order::indices_view(rows@),
        ),
{
    let ghost t = document.bytes();
    let ghost bv = (block.first as int, block.last as int);
    let ghost rv = order::indices_view(rows@);
    proof {
        document.lemma_wf();
    }
    let mut i: usize = 0;
    while i < rows.len()
        invariant
            document.wf(),
            t == document.bytes(),
            text::line_count(t) <= usize::MAX,
            block.first <= block.last < text::line_count(t),
            rows@.len() <= block.last - block.first + 1,
            bv == (block.first as int, block.last as int),
            rv == order::indices_view(rows@),
            i <= rows@.len(),
            forall|k: int|
                #![trigger rv[k]]
                0 <= k < i ==> text::content_bytes(t, bv.0 + k) == text::content_bytes(t, rv[k]),
        decreases rows.len() - i,
    {
        assert(rv[i as int] == rows@[i as int]);
        let standing = document.line_content(block.first + i);
        let given = document.line_content(rows[i]);
        if !equal_bytes(standing.as_str().as_bytes(), given.as_str().as_bytes()) {
            return false;
        }
        i = i + 1;
    }
    true
}

pub(crate) fn equal_bytes(a: &[u8], b: &[u8]) -> (equal: bool)
    ensures
        equal == (a@ == b@),
{
    let equal = a.len() == b.len() && bytes::bytes_match_at(a, 0, b);
    proof {
        if a@.len() == b@.len() {
            assert(a@.subrange(0, b@.len() as int) =~= a@);
        }
    }
    equal
}

pub open spec fn orders_view(orders: Seq<Vec<usize>>) -> Seq<Seq<int>> {
    Seq::new(orders.len(), |i: int| order::indices_view(orders[i]@))
}

/// Plans writing the lines of each selection in the order given for it.
#[verifier::rlimit(40)]
pub fn plan_ordered_lines(
    text: &Rope,
    selections: &[EditorSelection],
    orders: &Vec<Vec<usize>>,
    descending: bool,
) -> (plan: Option<EditPlan>)
    requires
        orders@.len() == selections@.len(),
        forall|i: int|
            #![trigger orders@[i]]
            0 <= i < orders@.len() && comment::all_valid(
                rope::rope_bytes(*text),
                selections@,
                selections@.len() as int,
            ) ==> is_row_order(
                sort_rows_of(rope::rope_bytes(*text), selections@, i),
                order::indices_view(orders@[i]@),
            ),
    ensures
        match plan {
            Some(plan) => sort_plan(
                rope::rope_bytes(*text),
                selections@,
                orders_view(orders@),
                descending,
            ) == Some((plan.view_edits(), plan.selections_after@)),
            None => sort_plan(
                rope::rope_bytes(*text),
                selections@,
                orders_view(orders@),
                descending,
            ) is None,
        },
{
    let document = Document::new(rope::rope_to_string(text));
    let ghost t = document.bytes();
    let ghost n = selections@.len() as int;
    let ghost dv = orders_view(orders@);
    if selections.len() == 0 || !check_selections(&document, selections) {
        return None;
    }
    proof {
        document.lemma_wf();
    }
    let expands = check_expands(&document, selections);
    let ending = document_line_ending(&document);
    let ghost bv = sort_blocks(t, selections@);
    let ghost ev = sort_edits_of(t, bv, dv, descending);
    proof {
        assert forall|i: int| #![trigger bv[i]] 0 <= i < bv.len() implies 0 <= bv[i].0 <= bv[i].1
            < text::line_count(t) by {
            lemma_selection_rows(t, selections@[i]);
        }
    }
    let mut planned: Vec<(Range<usize>, String)> = Vec::new();
    let mut selections_after: Vec<EditorSelection> = Vec::new();
    let mut total: usize = 0;
    let mut i: usize = 0;
    while i < selections.len()
        invariant
            document.wf(),
            t == document.bytes(),
            t == rope::rope_bytes(*text),
            n == selections@.len(),
            n > 0,
            comment::all_valid(t, selections@, n),
            orders@.len() == selections@.len(),
            dv == orders_view(orders@),
            forall|i: int|
                #![trigger orders@[i]]
                0 <= i < orders@.len() && comment::all_valid(t, selections@, n) ==> is_row_order(
                    sort_rows_of(t, selections@, i),
                    order::indices_view(orders@[i]@),
                ),
            expands == expands_to_document(t, selections@),
            encode_utf8(ending@) == line_ending(t),
            bv == sort_blocks(t, selections@),
            ev == sort_edits_of(t, bv, dv, descending),
            forall|i: int|
                #![trigger bv[i]]
                0 <= i < bv.len() ==> 0 <= bv[i].0 <= bv[i].1 < text::line_count(t),
            t.len() <= usize::MAX,
            text::line_count(t) <= usize::MAX,
            i <= selections@.len(),
            all_sortable(t, bv, dv, descending, i as int),
            total == rows_total(bv, i as int),
            total <= MAX_REORDER_LINES,
            planned@.len() == i,
            selections_after@.len() == i,
            forall|k: int| 0 <= k < i ==> edit::edit_view(#[trigger] planned@[k]) == ev[k],
            forall|k: int|
                #![trigger selections_after@[k]]
                0 <= k < i ==> selections_after@[k] == cursor::spec_from_anchor_and_head(
                    pinned_offset(ev[k], selections@[k].spec_anchor() as int) as usize,
                    pinned_offset(ev[k], selections@[k].spec_head() as int) as usize,
                ),
        decreases selections.len() - i,
    {
        let selection = selections[i];
        assert(comment::is_valid_selection(t, selections@[i as int]));
        let rows = find_sort_rows(&document, selections, expands, i);
        assert(bv[i as int] == (rows.first as int, rows.last as int));
        if rows.first >= rows.last {
            return None;
        }
        let count: usize = rows.last - rows.first + 1;
        proof {
            lemma_rows_total(bv, i + 1, bv.len() as int);
            lemma_block_range(t, bv[i as int]);
        }
        if count > MAX_REORDER_LINES - total {
            return None;
        }
        total = total + count;
        let ghost ov = order::indices_view(orders@[i as int]@);
        proof {
            assert(is_row_order(bv[i as int], ov));
            assert forall|k: int| 0 <= k < orders@[i as int]@.len() implies #[trigger] orders@[i as int]@[k]
                < orders@[i as int]@.len() by {
                assert(0 <= ov[k] < ov.len());
            }
            assert(dv[i as int] == ov);
        }
        let arranged = arrange_rows(rows, &orders[i], descending);
        assert(order::indices_view(arranged@).len() == arranged@.len());
        assert(arranged@.len() == ov.len());
        if check_reads_the_same(&document, rows, &arranged) {
            return None;
        }
        let start = document.line_start_offset(rows.first);
        let end: usize = document.line_start_offset(rows.last) + document.content_len(rows.last);
        let (replacement, _) = join_rows(&document, &arranged, ending);
        let anchor = pin_offset(start, end, replacement.as_str(), selection.anchor());
        let head = pin_offset(start, end, replacement.as_str(), selection.head());
        planned.push((start..end, replacement));
        assert(edit::edit_view(planned@[i as int]) == ev[i as int]);
        selections_after.push(EditorSelection::from_anchor_and_head(anchor, head));
        i = i + 1;
    }
    assert(edit::edits_view(planned@) =~= ev);
    let (sorted, _) = edit::sort_edits(&planned);
    if edit::edits_overlap(&sorted) {
        return None;
    }
    proof {
        let expected = (sort_plan(t, selections@, dv, descending)->Some_0).1;
        assert(selections_after@ =~= expected);
    }
    Some(EditPlan { edits: sorted, selections_after })
}

/// The lines of a block, decoded.
pub open spec fn block_lines(t: Seq<u8>, block: (int, int)) -> Seq<Seq<char>> {
    Seq::new(
        (block.1 - block.0 + 1) as nat,
        |i: int| decode_utf8(text::content_bytes(t, block.0 + i)),
    )
}

/// For each selection the order in which the collator puts its lines.
pub open spec fn collated_orders(
    t: Seq<u8>,
    selections: Seq<EditorSelection>,
    collator: Collator,
) -> Seq<Seq<int>> {
    Seq::new(
        selections.len(),
        |i: int|
            {
                let block = sort_rows_of(t, selections, i);
                collation::collated(
                    collator,
                    block_lines(t, block),
                    0,
                    block.1 - block.0 + 1,
                )
            },
    )
}

/// Plans sorting the lines of each selection, or of the whole document, by the
/// collator.
pub fn plan_sort_lines(
    text: &Rope,
    selections: &[EditorSelection],
    collator: &Collator,
    descending: bool,
) -> (plan: Option<EditPlan>)
    ensures
        match plan {
            Some(plan) => sort_plan(
                rope::rope_bytes(*text),
                selections@,
                collated_orders(rope::rope_bytes(*text), selections@, *collator),
                descending,
            ) == Some((plan.view_edits(), plan.selections_after@)),
            None => sort_plan(
                rope::rope_bytes(*text),
                selections@,
                collated_orders(rope::rope_bytes(*text), selections@, *collator),
                descending,
            ) is None,
        },
{
    let document = Document::new(rope::rope_to_string(text));
    let ghost t = document.bytes();
    let ghost n = selections@.len() as int;
    if selections.len() == 0 || !check_selections(&document, selections) {
        return None;
    }
    proof {
        document.lemma_wf();
    }
    let expands = check_expands(&document, selections);
    let ghost co = collated_orders(t, selections@, *collator);
    let ghost bv = sort_blocks(t, selections@);
    proof {
        assert forall|i: int| #![trigger bv[i]] 0 <= i < bv.len() implies 0 <= bv[i].0 <= bv[i].1
            < text::line_count(t) by {
            lemma_selection_rows(t, selections@[i]);
        }
    }
    let mut orders: Vec<Vec<usize>> = Vec::new();
    let mut total: usize = 0;
    let mut i: usize = 0;
    while i < selections.len()
        invariant
            document.wf(),
            t == document.bytes(),
            t == rope::rope_bytes(*text),
            n == selections@.len(),
            comment::all_valid(t, selections@, n),
            expands == expands_to_document(t, selections@),
            co == collated_orders(t, selections@, *collator),
            text::line_count(t) <= usize::MAX,
            bv == sort_blocks(t, selections@),
            forall|i: int|
                #![trigger bv[i]]
                0 <= i < bv.len() ==> 0 <= bv[i].0 <= bv[i].1 < text::line_count(t),
            i <= selections@.len(),
            total == rows_total(bv, i as int),
            total <= MAX_REORDER_LINES,
            orders@.len() == i,
            forall|k: int|
                #![trigger orders@[k]]
                0 <= k < i ==> order::indices_view(orders@[k]@) == co[k] && is_row_order(
                    sort_rows_of(t, selections@, k),
                    co[k],
                ),
        decreases selections.len() - i,
    {
        assert(comment::is_valid_selection(t, selections@[i as int]));
        let rows = find_sort_rows(&document, selections, expands, i);
        let ghost block = (rows.first as int, rows.last as int);
        assert(bv[i as int] == block);
        let count: usize = rows.last - rows.first + 1;
        proof {
            lemma_rows_total(bv, i + 1, bv.len() as int);
        }
        if rows.first >= rows.last || count > MAX_REORDER_LINES - total {
            proof {
                if rows.first >= rows.last {
                    assert(!all_sortable(t, bv, co, descending, n));
                }
            }
            return None;
        }
        total = total + count;
        let mut lines: Vec<String> = Vec::new();
        let mut k: usize = 0;
        while k < count
            invariant
                document.wf(),
                t == document.bytes(),
                text::line_count(t) <= usize::MAX,
                block == (rows.first as int, rows.last as int),
                rows.first <= rows.last < text::line_count(t),
                count == rows.last - rows.first + 1,
                k <= count,
                lines@.len() == k,
                forall|j: int|
                    0 <= j < k ==> (#[trigger] lines@[j])@ == decode_utf8(
                        text::content_bytes(t, block.0 + j),
                    ),
            decreases count - k,
        {
            let line = document.line_content(rows.first + k);
            proof {
                encode_utf8_decode_utf8(line@);
            }
            lines.push(line);
            k = k + 1;
        }
        assert(collation::lines_view(lines@) =~= block_lines(t, block));
        let order = collation::sort_lines(collator, &lines, 0, count);
        proof {
            collation::law_collated_is_permutation(
                *collator,
                block_lines(t, block),
                0,
                count as int,
            );
            let ov = order::indices_view(order@);
            assert forall|k: int| #![trigger ov[k]] 0 <= k < ov.len() implies 0 <= ov[k] < ov.len() by {
                assert(ov.contains(ov[k]));
            }
        }
        orders.push(order);
        i = i + 1;
    }
    assert(orders_view(orders@) =~= co);
    plan_ordered_lines(text, selections, &orders, descending)
}

} // verus!
