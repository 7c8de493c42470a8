//! Deleting duplicate lines.

use crate::comment;
use crate::cursor;
use crate::cursor::EditorSelection;
use crate::edit;
use crate::edit::EditPlan;
use crate::line_operations as lines;
use crate::order;
use crate::rope;
use crate::text;
use crate::text::Document;
use ropey::Rope;
use std::ops::Range;
use vstd::prelude::*;
use vstd::string::*;
use vstd::utf8::*;

verus! {

/// Whether a row from `first` to `last` reads the same as `row`.
pub open spec fn occurs_in(t: Seq<u8>, first: int, last: int, row: int) -> bool {
    exists|r: int|
        first <= r <= last && #[trigger] text::content_bytes(t, r) == text::content_bytes(t, row)
}

/// The rows from `first` to `last` that read like no row before them.
pub open spec fn retained_rows(t: Seq<u8>, first: int, last: int) -> Seq<int>
    decreases last - first + 1,
{
    if last < first {
        Seq::empty()
    } else {
        let before = retained_rows(t, first, last - 1);
        if occurs_in(t, first, last - 1, last) {
            before
        } else {
            before.push(last)
        }
    }
}

/// The rows that deduplication covers for a selection.
pub open spec fn deduplicate_rows_of(
    t: Seq<u8>,
    selections: Seq<EditorSelection>,
    i: int,
) -> (int, int) {
    if lines::expands_to_document(t, selections) {
        (0, text::line_count(t) - 1)
    } else {
        (
            text::row_at(t, selections[i].range.start as int),
            text::row_at(t, selections[i].range.end as int),
        )
    }
}

pub open spec fn deduplicate_blocks(t: Seq<u8>, selections: Seq<EditorSelection>) -> Seq<
    (int, int),
> {
    Seq::new(selections.len(), |i: int| deduplicate_rows_of(t, selections, i))
}

/// A block of rows with only the first of those that read the same.
pub open spec fn deduplicated_text(t: Seq<u8>, block: (int, int)) -> Seq<u8> {
    let rows = retained_rows(t, block.0, block.1);
    lines::joined(t, rows, lines::line_ending(t), rows.len() as int)
}

pub open spec fn deduplicate_edits(t: Seq<u8>, blocks: Seq<(int, int)>) -> Seq<
    (int, int, Seq<u8>),
> {
    Seq::new(
        blocks.len(),
        |i: int|
            (
                lines::block_range(t, blocks[i]).0,
                lines::block_range(t, blocks[i]).1,
                deduplicated_text(t, blocks[i]),
            ),
    )
}

/// Where an offset of the only selection comes to lie.
pub open spec fn deduplicated_offset(
    edit: (int, int, Seq<u8>),
    sorted: Seq<(int, int, Seq<u8>)>,
    offset: int,
) -> int {
    if offset < edit.0 || offset > edit.1 {
        edit::shifted(sorted, offset, true, 0, 0)
    } else {
        lines::pinned_offset(edit, offset)
    }
}

/// The selection after the edits: the caret stays where it was when the whole
/// document was deduplicated, else the new text is selected.
pub open spec fn deduplicated_selection(
    t: Seq<u8>,
    selections: Seq<EditorSelection>,
    i: int,
) -> EditorSelection {
    let edits = deduplicate_edits(t, deduplicate_blocks(t, selections));
    let sorted = edit::sorted_edits(edits);
    let order = order::sorted_order(edit::edit_keys(edits), edits.len() as int);
    if lines::expands_to_document(t, selections) {
        cursor::spec_from_anchor_and_head(
            deduplicated_offset(edits[0], sorted, selections[0].spec_anchor() as int) as usize,
            deduplicated_offset(edits[0], sorted, selections[0].spec_head() as int) as usize,
        )
    } else {
        cursor::spec_from_anchor_and_head(
            comment::span_start(sorted, order, i) as usize,
            comment::span_end(sorted, order, i) as usize,
        )
    }
}

/// What deleting duplicate lines plans: nothing in an empty document, without
/// a selection, where one is no range of the text, beyond the bound on rows, or
/// where two blocks overlap.
pub open spec fn deduplicate_plan(t: Seq<u8>, selections: Seq<EditorSelection>) -> Option<
    (Seq<(int, int, Seq<u8>)>, Seq<EditorSelection>),
> {
    let n = selections.len() as int;
    let blocks = deduplicate_blocks(t, selections);
    let sorted = edit::sorted_edits(deduplicate_edits(t, blocks));
    if n == 0 || (text::line_count(t) == 1 && text::content_bytes(t, 0).len() == 0)
        || !comment::all_valid(t, selections, n) || lines::rows_total(blocks, n)
        > lines::MAX_REORDER_LINES || edit::has_overlap(sorted) {
        None
    } else {
        Some(
            (
                sorted,
                Seq::new(selections.len(), |i: int| deduplicated_selection(t, selections, i)),
            ),
        )
    }
}

/// Whether one of `rows`, at or before `row`, reads the same as `row`.
pub open spec fn is_represented(t: Seq<u8>, rows: Seq<int>, row: int) -> bool {
    exists|k: int|
        0 <= k < rows.len() && #[trigger] rows[k] <= row && text::content_bytes(t, rows[k])
            == text::content_bytes(t, row)
}

/// The retained rows are rows of the block, ascending, no two read the same,
/// and every row of the block reads like one of them.
pub proof fn law_retained_rows(t: Seq<u8>, first: int, last: int)
    ensures
        order::is_ascending(retained_rows(t, first, last)),
        forall|k: int|
            #![trigger retained_rows(t, first, last)[k]]
            0 <= k < retained_rows(t, first, last).len() ==> first <= retained_rows(
                t,
                first,
                last,
            )[k] <= last,
        forall|a: int, b: int|
            #![trigger retained_rows(t, first, last)[a], retained_rows(t, first, last)[b]]
            0 <= a < b < retained_rows(t, first, last).len() ==> text::content_bytes(
                t,
                retained_rows(t, first, last)[a],
            ) != text::content_bytes(t, retained_rows(t, first, last)[b]),
        forall|r: int|
            first <= r <= last ==> #[trigger] is_represented(t, retained_rows(t, first, last), r),
    decreases last - first + 1,
{
    if first <= last {
        law_retained_rows(t, first, last - 1);
        let before = retained_rows(t, first, last - 1);
        let after = retained_rows(t, first, last);
        assert forall|r: int| first <= r <= last implies #[trigger] is_represented(
            t,
            after,
            r,
        ) by {
            if r < last {
                assert(is_represented(t, before, r));
                let k = choose|k: int|
                    0 <= k < before.len() && #[trigger] before[k] <= r && text::content_bytes(
                        t,
                        before[k],
                    ) == text::content_bytes(t, r);
                assert(after[k] == before[k]);
            } else if occurs_in(t, first, last - 1, last) {
                let s = choose|s: int|
                    first <= s <= last - 1 && #[trigger] text::content_bytes(t, s)
                        == text::content_bytes(t, last);
                assert(is_represented(t, before, s));
                let k = choose|k: int|
                    0 <= k < before.len() && #[trigger] before[k] <= s && text::content_bytes(
                        t,
                        before[k],
                    ) == text::content_bytes(t, s);
                assert(after[k] == before[k]);
            } else {
                assert(after[before.len() as int] == last);
            }
        }
        assert forall|a: int, b: int| #![trigger after[a], after[b]] 0 <= a < b < after.len() implies text::content_bytes(
            t,
            after[a],
        ) != text::content_bytes(t, after[b]) by {
            assert(after[a] == before[a]);
            if b < before.len() {
                assert(after[b] == before[b]);
            }
        }
    }
}

proof fn lemma_retained_weight(t: Seq<u8>, first: int, last: int)
    ensures
        0 <= lines::weight(
            t,
            retained_rows(t, first, last),
            retained_rows(t, first, last).len() as int,
        ) <= lines::rows_weight(t, first, last),
    decreases last - first + 1,
{
    if first <= last {
        lemma_retained_weight(t, first, last - 1);
        let before = retained_rows(t, first, last - 1);
        let after = retained_rows(t, first, last);
        if after.len() > before.len() {
            lemma_weight_of_prefix(t, before, last, before.len() as int);
        }
    }
}

proof fn lemma_weight_of_prefix(t: Seq<u8>, rows: Seq<int>, row: int, n: int)
    requires
        0 <= n <= rows.len(),
    ensures
        lines::weight(t, rows.push(row), n) == lines::weight(t, rows, n),
    decreases n,
{
    if n > 0 {
        lemma_weight_of_prefix(t, rows, row, n - 1);
    }
}

proof fn lemma_deduplicated_text(t: Seq<u8>, block: (int, int))
    requires
        0 <= block.0 <= block.1 < text::line_count(t),
    ensures
        deduplicated_text(t, block).len() <= 2 * t.len() + 2,
{
    let rows = retained_rows(t, block.0, block.1);
    lemma_retained_weight(t, block.0, block.1);
    lines::lemma_joined_weight(t, rows, lines::line_ending(t), rows.len() as int);
    lines::lemma_rows_weight(t, block.0, block.1);
    text::lemma_line_start(t, block.0);
}

/// A hash of the first `n` bytes of `s`.
spec fn line_hash(s: Seq<u8>, n: int) -> u64
    decreases n,
{
    if n <= 0 {
        7
    } else {
        line_hash(s, n - 1).wrapping_mul(1_099_511_628_211).wrapping_add(s[n - 1] as u64)
    }
}

fn hash_line(s: &[u8]) -> (hash: u64)
    ensures
        hash == line_hash(s@, s@.len() as int),
{
    let mut hash: u64 = 7;
    let mut i: usize = 0;
    while i < s.len()
        invariant
            i <= s@.len(),
            hash == line_hash(s@, i as int),
        decreases s.len() - i,
    {
        hash = hash.wrapping_mul(1_099_511_628_211).wrapping_add(s[i] as u64);
        i = i + 1;
    }
    hash
}

/// Every row from `first` up to `next` reads like a row in the bucket of its hash.
spec fn buckets_wf(t: Seq<u8>, buckets: Seq<Vec<usize>>, first: int, next: int) -> bool {
    &&& buckets.len() > 0
    &&& forall|b: int, k: int|
        #![trigger buckets[b]@[k]]
        0 <= b < buckets.len() && 0 <= k < buckets[b]@.len() ==> first <= buckets[b]@[k] < next
    &&& forall|r: int|
        first <= r < next ==> #[trigger] has_twin(t, buckets[bucket_of(t, buckets, r)]@, r)
}

/// Whether one of the rows in `bucket` reads the same as `row`.
spec fn has_twin(t: Seq<u8>, bucket: Seq<usize>, row: int) -> bool {
    exists|k: int|
        0 <= k < bucket.len() && text::content_bytes(t, (#[trigger] bucket[k]) as int)
            == text::content_bytes(t, row)
}

spec fn bucket_of(t: Seq<u8>, buckets: Seq<Vec<usize>>, row: int) -> int {
    let s = text::content_bytes(t, row);
    line_hash(s, s.len() as int) as int % buckets.len() as int
}

/// The rows from `first` to `last` that read like no row before them.
fn collect_retained_rows(document: &Document, first: usize, last: usize) -> (rows: Vec<usize>)
    requires
        document.wf(),
        first <= last < text::line_count(document.bytes()),
    ensures
        order::indices_view(rows@) == retained_rows(document.bytes(), first as int, last as int),
{
    let ghost t = document.bytes();
    proof {
        document.lemma_wf();
    }
    let count: usize = last - first + 1;
    let mut buckets: Vec<Vec<usize>> = Vec::new();
    while buckets.len() < count
        invariant
            buckets@.len() <= count,
            forall|b: int| 0 <= b < buckets@.len() ==> (#[trigger] buckets@[b])@.len() == 0,
        decreases count - buckets.len(),
    {
        buckets.push(Vec::new());
    }
    let mut rows: Vec<usize> = Vec::new();
    let mut row: usize = first;
    assert(order::indices_view(rows@) =~= retained_rows(t, first as int, row - 1));
    while row <= last
        invariant
            document.wf(),
            t == document.bytes(),
            text::line_count(t) <= usize::MAX,
            first <= row <= last + 1,
            last < text::line_count(t),
            buckets_wf(t, buckets@, first as int, row as int),
            order::indices_view(rows@) == retained_rows(t, first as int, row - 1),
        decreases last + 1 - row,
    {
        let content = document.line_content(row);
        let s = content.as_str().as_bytes();
        let size: u64 = buckets.len() as u64;
        proof {
            assert(buckets.len() <= u64::MAX);
        }
        let at: usize = (hash_line(s) % size) as usize;
        assert(at == bucket_of(t, buckets@, row as int));
        let mut seen = false;
        let mut k: usize = 0;
        while k < buckets[at].len()
            invariant
                document.wf(),
                t == document.bytes(),
                at < buckets@.len(),
                first <= row,
                s@ == text::content_bytes(t, row as int),
                buckets_wf(t, buckets@, first as int, row as int),
                k <= buckets@[at as int]@.len(),
                seen ==> occurs_in(t, first as int, row - 1, row as int),
                !seen ==> forall|j: int|
                    0 <= j < k ==> text::content_bytes(
                        t,
                        #[trigger] buckets@[at as int]@[j] as int,
                    ) != s@,
            decreases buckets@[at as int]@.len() - k,
        {
            let other_row: usize = buckets[at][k];
            let other = document.line_content(other_row);
            if lines::equal_bytes(other.as_str().as_bytes(), s) {
                assert(text::content_bytes(t, other_row as int) == text::content_bytes(
                    t,
                    row as int,
                ));
                seen = true;
            }
            k = k + 1;
        }
        let ghost before = buckets@;
        if !seen {
            proof {
                if occurs_in(t, first as int, row - 1, row as int) {
                    let r = choose|r: int|
                        first <= r <= row - 1 && #[trigger] text::content_bytes(t, r)
                            == text::content_bytes(t, row as int);
                    assert(bucket_of(t, buckets@, r) == at);
                    let bucket = buckets@[at as int]@;
                    assert(has_twin(t, bucket, r));
                    let j = choose|j: int|
                        0 <= j < bucket.len() && text::content_bytes(
                            t,
                            (#[trigger] bucket[j]) as int,
                        ) == text::content_bytes(t, r);
                    assert(text::content_bytes(t, buckets@[at as int]@[j] as int) != s@);
                }
            }
            let ghost kept = rows@;
            rows.push(row);
            assert(order::indices_view(rows@) =~= order::indices_view(kept).push(row as int));
            let mut bucket: Vec<usize> = Vec::new();
            bucket.append(&mut buckets[at]);
            bucket.push(row);
            buckets[at] = bucket;
            proof {
                assert(buckets@[at as int]@ =~= before[at as int]@.push(row));
                assert forall|b: int| 0 <= b < buckets@.len() && b != at implies #[trigger] buckets@[b]
                    == before[b] by {}
            }
        }
        proof {
            lemma_buckets_step(t, before, buckets@, first as int, row as int, at as int, seen);
        }
        row = row + 1;
    }
    rows
}

proof fn lemma_buckets_step(
    t: Seq<u8>,
    before: Seq<Vec<usize>>,
    after: Seq<Vec<usize>>,
    first: int,
    row: int,
    at: int,
    seen: bool,
)
    requires
        buckets_wf(t, before, first, row),
        first <= row,
        at == bucket_of(t, before, row),
        after.len() == before.len(),
        seen ==> after == before && occurs_in(t, first, row - 1, row),
        !seen ==> after[at]@ == before[at]@.push(row as usize) && 0 <= row <= usize::MAX,
        !seen ==> forall|b: int| 0 <= b < before.len() && b != at ==> #[trigger] after[b] == before[b],
    ensures
        buckets_wf(t, after, first, row + 1),
{
    assert forall|r: int| first <= r < row + 1 implies #[trigger] has_twin(
        t,
        after[bucket_of(t, after, r)]@,
        r,
    ) by {
        let b = bucket_of(t, after, r);
        assert(b == bucket_of(t, before, r));
        if r < row {
            assert(has_twin(t, before[b]@, r));
            let k = choose|k: int|
                0 <= k < before[b]@.len() && text::content_bytes(
                    t,
                    (#[trigger] before[b]@[k]) as int,
                ) == text::content_bytes(t, r);
            assert(after[b]@[k] == before[b]@[k]);
        } else if seen {
            let s = choose|s: int|
                first <= s <= row - 1 && #[trigger] text::content_bytes(t, s)
                    == text::content_bytes(t, row);
            assert(bucket_of(t, before, s) == b);
            assert(has_twin(t, before[b]@, s));
        } else {
            let k = before[at]@.len() as int;
            assert(after[at]@[k] == row);
        }
    }
}

/// Where the lines of the selections lie.
proof fn lemma_deduplicate_blocks(t: Seq<u8>, selections: Seq<EditorSelection>)
    requires
        comment::all_valid(t, selections, selections.len() as int),
    ensures
        forall|i: int|
            #![trigger deduplicate_blocks(t, selections)[i]]
            0 <= i < deduplicate_blocks(t, selections).len() ==> 0 <= deduplicate_blocks(
                t,
                selections,
            )[i].0 <= deduplicate_blocks(t, selections)[i].1 < text::line_count(t),
{
    let bv = deduplicate_blocks(t, selections);
    assert forall|i: int| #![trigger bv[i]] 0 <= i < bv.len() implies 0 <= bv[i].0 <= bv[i].1
        < text::line_count(t) by {
        text::lemma_newlines_bound(t, t.len() as int);
        let selection = selections[i];
        assert(comment::is_valid_selection(t, selection));
        text::lemma_row_at(t, selection.range.start as int);
        text::lemma_row_at(t, selection.range.end as int);
        text::lemma_row_at_monotonic(
            t,
            selection.range.start as int,
            selection.range.end as int,
        );
    }
}

/// One edit for the lines of each selection, or `None` where they are too many.
fn plan_block_edits(
    document: &Document,
    selections: &[EditorSelection],
    expands: bool,
) -> (planned: Option<Vec<(Range<usize>, String)>>)
    requires
        document.wf(),
        selections@.len() > 0,
        comment::all_valid(document.bytes(), selections@, selections@.len() as int),
        expands == lines::expands_to_document(document.bytes(), selections@),
    ensures
        ({
            let bv = deduplicate_blocks(document.bytes(), selections@);
            match planned {
                Some(planned) => edit::edits_view(planned@) == deduplicate_edits(
                    document.bytes(),
                    bv,
                ) && lines::rows_total(bv, bv.len() as int) <= lines::MAX_REORDER_LINES,
                None => lines::rows_total(bv, bv.len() as int) > lines::MAX_REORDER_LINES,
            }
        }),
{
    let ghost t = document.bytes();
    let ghost n = selections@.len() as int;
    proof {
        document.lemma_wf();
        lemma_deduplicate_blocks(t, selections@);
    }
    let last_row: usize = document.lines_len() - 1;
    let ending = lines::document_line_ending(document);
    let ghost bv = deduplicate_blocks(t, selections@);
    let ghost ev = deduplicate_edits(t, bv);
    let mut planned: Vec<(Range<usize>, String)> = Vec::new();
    let mut total: usize = 0;
    let mut i: usize = 0;
    while i < selections.len()
        invariant
            document.wf(),
            t == document.bytes(),
            n == selections@.len(),
            n > 0,
            expands == lines::expands_to_document(t, selections@),
            last_row == text::line_count(t) - 1,
            encode_utf8(ending@) == lines::line_ending(t),
            bv == deduplicate_blocks(t, selections@),
            ev == deduplicate_edits(t, bv),
            forall|i: int|
                #![trigger bv[i]]
                0 <= i < bv.len() ==> 0 <= bv[i].0 <= bv[i].1 < text::line_count(t),
            text::line_count(t) <= usize::MAX,
            t.len() <= usize::MAX,
            i <= selections@.len(),
            total == lines::rows_total(bv, i as int),
            total <= lines::MAX_REORDER_LINES,
            planned@.len() == i,
            forall|k: int| 0 <= k < i ==> edit::edit_view(#[trigger] planned@[k]) == ev[k],
        decreases selections.len() - i,
    {
        let selection = selections[i];
        let (first, last): (usize, usize) = if expands {
            (0, last_row)
        } else {
            (
                document.offset_to_point(selection.range.start).row,
                document.offset_to_point(selection.range.end).row,
            )
        };
        assert(bv[i as int] == (first as int, last as int));
        let count: usize = last - first + 1;
        proof {
            lines::lemma_rows_total(bv, i + 1, bv.len() as int);
            lines::lemma_block_range(t, bv[i as int]);
        }
        if count > lines::MAX_REORDER_LINES - total {
            return None;
        }
        total = total + count;
        let rows = collect_retained_rows(document, first, last);
        assert(rows@.len() == order::indices_view(rows@).len());
        let (replacement, _) = lines::join_rows(document, &rows, ending);
        let start = document.line_start_offset(first);
        let end: usize = document.line_start_offset(last) + document.content_len(last);
        planned.push((start..end, replacement));
        assert(edit::edit_view(planned@[i as int]) == ev[i as int]);
        i = i + 1;
    }
    assert(edit::edits_view(planned@) =~= ev);
    Some(planned)
}

/// The sorted edits lie in order and what they add fits.
proof fn lemma_deduplicate_edits(t: Seq<u8>, selections: Seq<EditorSelection>)
    requires
        comment::all_valid(t, selections, selections.len() as int),
        lines::plan_fits(t.len() as int, selections.len() as int),
        selections.len() > 0,
        !edit::has_overlap(
            edit::sorted_edits(deduplicate_edits(t, deduplicate_blocks(t, selections))),
        ),
    ensures
        ({
            let ev = deduplicate_edits(t, deduplicate_blocks(t, selections));
            let sv = edit::sorted_edits(ev);
            &&& edit::edits_ordered(sv, t.len() as int)
            &&& t.len() + edit::added(sv, sv.len() as int) <= usize::MAX
            &&& order::is_stable_order(
                edit::edit_keys(ev),
                order::sorted_order(edit::edit_keys(ev), ev.len() as int),
                ev.len() as int,
            )
        }),
{
    let bv = deduplicate_blocks(t, selections);
    let ev = deduplicate_edits(t, bv);
    let sv = edit::sorted_edits(ev);
    let ov = order::sorted_order(edit::edit_keys(ev), ev.len() as int);
    lemma_deduplicate_blocks(t, selections);
    assert forall|k: int| #![trigger ev[k]] 0 <= k < ev.len() implies 0 <= ev[k].0 <= ev[k].1
        <= t.len() && ev[k].2.len() <= 3 * t.len() + 8 by {
        assert(0 <= bv[k].0 <= bv[k].1 < text::line_count(t));
        lines::lemma_block_range(t, bv[k]);
        lemma_deduplicated_text(t, bv[k]);
    }
    order::lemma_sorted_order(edit::edit_keys(ev), ev.len() as int);
    edit::lemma_sorted_edits(ev, t.len() as int);
    edit::lemma_edits_ordered(sv, t.len() as int);
    assert forall|k: int| #![trigger sv[k]] 0 <= k < sv.len() implies sv[k].2.len() <= 3 * t.len()
        + 8 by {
        assert(sv[k] == ev[ov[k]]);
    }
    lines::lemma_plan_fits(t.len() as int, selections.len() as int, sv);
}

/// Plans keeping only the first of the lines that read the same, within each
/// selection or across the whole document.
pub fn plan_delete_duplicate_lines(text: &Rope, selections: &[EditorSelection]) -> (plan: Option<
    EditPlan,
>)
    requires
        lines::plan_fits(rope::rope_bytes(*text).len() as int, selections@.len() as int),
    ensures
        match plan {
            Some(plan) => deduplicate_plan(rope::rope_bytes(*text), selections@) == Some(
                (plan.view_edits(), plan.selections_after@),
            ),
            None => deduplicate_plan(rope::rope_bytes(*text), selections@) is None,
        },
{
    let document = Document::new(rope::rope_to_string(text));
    let ghost t = document.bytes();
    if selections.len() == 0 {
        return None;
    }
    if document.lines_len() == 1 && document.content_len(0) == 0 {
        return None;
    }
    if !lines::check_selections(&document, selections) {
        return None;
    }
    let expands = lines::check_expands(&document, selections);
    let planned = match plan_block_edits(&document, selections, expands) {
        Some(planned) => planned,
        None => {
            return None;
        },
    };
    let (sorted, order) = edit::sort_edits(&planned);
    if edit::edits_overlap(&sorted) {
        return None;
    }
    proof {
        lemma_deduplicate_edits(t, selections@);
        assert(planned@.len() == edit::edits_view(planned@).len());
    }
    let selections_after = deduplicated_selections(
        selections,
        expands,
        &planned,
        &sorted,
        &order,
        Ghost(t),
    );
    proof {
        let expected = (deduplicate_plan(t, selections@)->Some_0).1;
        assert(selections_after@ =~= expected);
    }
    Some(EditPlan { edits: sorted, selections_after })
}

/// The selections after the edits.
fn deduplicated_selections(
    selections: &[EditorSelection],
    expands: bool,
    planned: &Vec<(Range<usize>, String)>,
    sorted: &Vec<(Range<usize>, String)>,
    order: &Vec<usize>,
    Ghost(t): Ghost<Seq<u8>>,
) -> (after: Vec<EditorSelection>)
    requires
        selections@.len() > 0,
        comment::all_valid(t, selections@, selections@.len() as int),
        expands == lines::expands_to_document(t, selections@),
        edit::edits_view(planned@) == deduplicate_edits(t, deduplicate_blocks(t, selections@)),
        edit::edits_view(sorted@) == edit::sorted_edits(edit::edits_view(planned@)),
        order::indices_view(order@) == order::sorted_order(
            edit::edit_keys(edit::edits_view(planned@)),
            planned@.len() as int,
        ),
        order::is_stable_order(
            edit::edit_keys(edit::edits_view(planned@)),
            order::indices_view(order@),
            planned@.len() as int,
        ),
        planned@.len() == selections@.len(),
        sorted@.len() == planned@.len(),
        order@.len() == planned@.len(),
        edit::edits_ordered(edit::edits_view(sorted@), t.len() as int),
        t.len() + edit::added(edit::edits_view(sorted@), sorted@.len() as int) <= usize::MAX,
    ensures
        after@.len() == selections@.len(),
        forall|i: int|
            0 <= i < after@.len() ==> #[trigger] after@[i] == deduplicated_selection(
                t,
                selections@,
                i,
            ),
{
    let ghost ev = edit::edits_view(planned@);
    let ghost sv = edit::edits_view(sorted@);
    let ghost ov = order::indices_view(order@);
    let mut after: Vec<EditorSelection> = Vec::new();
    if expands {
        let selection = selections[0];
        assert(comment::is_valid_selection(t, selections@[0]));
        assert(edit::edit_view(planned@[0]) == ev[0]);
        let start: usize = planned[0].0.start;
        let end: usize = planned[0].0.end;
        proof {
            assert(ov.contains(0));
            let p = ov.index_of(0);
            assert(ov[p] == 0 && sv[p] == ev[0]);
            assert(0 <= sv[p].0 <= sv[p].1);
        }
        let anchor: usize = if selection.anchor() < start || selection.anchor() > end {
            edit::shift_offset(sorted, selection.anchor(), true)
        } else {
            lines::pin_offset(start, end, planned[0].1.as_str(), selection.anchor())
        };
        let head: usize = if selection.head() < start || selection.head() > end {
            edit::shift_offset(sorted, selection.head(), true)
        } else {
            lines::pin_offset(start, end, planned[0].1.as_str(), selection.head())
        };
        after.push(EditorSelection::from_anchor_and_head(anchor, head));
        return after;
    }
    proof {
        assert forall|i: int| 0 <= i < order@.len() implies #[trigger] order@[i] < sorted@.len() by {
            assert(0 <= ov[i] < planned@.len());
        }
        assert forall|i: int, j: int|
            #![trigger order@[i], order@[j]]
            0 <= i < j < order@.len() implies order@[i] != order@[j] by {
            assert(ov[i] == order@[i] && ov[j] == order@[j]);
        }
    }
    let spans = comment::resolve_edit_spans(sorted, order);
    let mut i: usize = 0;
    while i < selections.len()
        invariant
            ev == deduplicate_edits(t, deduplicate_blocks(t, selections@)),
            sv == edit::sorted_edits(ev),
            ov == order::sorted_order(edit::edit_keys(ev), ev.len() as int),
            order::is_stable_order(edit::edit_keys(ev), ov, ev.len() as int),
            ev.len() == selections@.len(),
            !lines::expands_to_document(t, selections@),
            comment::spans_resolved(sv, ov, spans@),
            i <= selections@.len(),
            after@.len() == i,
            forall|k: int|
                0 <= k < i ==> #[trigger] after@[k] == deduplicated_selection(t, selections@, k),
        decreases selections.len() - i,
    {
        proof {
            assert(ov.contains(i as int));
            let p = ov.index_of(i as int);
            assert(0 <= p < ov.len() && ov[p] == i);
        }
        after.push(EditorSelection::from_anchor_and_head(spans[i].0, spans[i].1));
        i = i + 1;
    }
    after
}

} // verus!
