//! What is folded and unfolded, and which of equal rows stay.

use crate::cursor::EditorSelection;
use crate::deduplicate;
use crate::folding;
use crate::folding::FoldRange;
use crate::text;
use crate::text_laws;
use vstd::prelude::*;

verus! {

/// The range covers the line, its first and its last included.
pub open spec fn covers_line(range: FoldRange, line: int) -> bool {
    range.start_line <= line && line <= range.end_line
}

/// No folded range starts where the range does.
pub open spec fn is_open(range: FoldRange, folded: Seq<FoldRange>) -> bool {
    forall|i: int| 0 <= i < folded.len() ==> (#[trigger] folded[i]).start_line != range.start_line
}

/// What is folded at a line is, of the ranges that cover it and are not folded yet,
/// the one that starts last; nothing is folded only where there is none.
pub proof fn law_range_to_fold(
    line: int,
    candidates: Seq<FoldRange>,
    folded: Seq<FoldRange>,
    i: int,
)
    requires
        0 <= i < candidates.len(),
        covers_line(candidates[i], line),
        is_open(candidates[i], folded),
    ensures
        ({
            let found = folding::fold_candidate(line, candidates, folded, candidates.len() as int);
            &&& found matches Some(range) && candidates.contains(range) && covers_line(range, line)
                && is_open(range, folded) && candidates[i].start_line <= range.start_line
            &&& (forall|j: int|
                0 <= j < candidates.len() && j != i && covers_line(#[trigger] candidates[j], line)
                    && is_open(candidates[j], folded) ==> candidates[j].start_line
                    < candidates[i].start_line) ==> found == Some(candidates[i])
        }),
{
    let n = candidates.len() as int;
    folding::law_fold_candidate_is_innermost(line, candidates, folded, n);
    let found = folding::fold_candidate(line, candidates, folded, n);
    lemma_open(candidates[i], folded);
    assert(found is Some);
    let range = found->Some_0;
    lemma_open(range, folded);
    let k = choose|k: int| 0 <= k < n && #[trigger] candidates[k] == range;
    assert(candidates.contains(range));
}

proof fn lemma_open(range: FoldRange, folded: Seq<FoldRange>)
    ensures
        is_open(range, folded) == !folding::starts_fold(folded, range.start_line),
{
}

/// Unfolding leaves the ranges that start at none of the targets, and no other.
#[verifier::rlimit(30)]
pub proof fn law_what_stays_folded(folded: Seq<FoldRange>, targets: Seq<int>, n: int, range: FoldRange)
    requires
        0 <= n <= folded.len(),
    ensures
        folding::without_folds(folded, targets, n).contains(range) <==> folded.take(n).contains(range)
            && !targets.contains(range.start_line as int),
    decreases n,
{
    let now = folding::without_folds(folded, targets, n);
    if n > 0 {
        law_what_stays_folded(folded, targets, n - 1, range);
        let before = folding::without_folds(folded, targets, n - 1);
        let own = folded[n - 1];
        assert(folded.take(n) =~= folded.take(n - 1).push(own));
        if folded.take(n - 1).contains(range) {
            let k = choose|k: int| 0 <= k < n - 1 && #[trigger] folded.take(n - 1)[k] == range;
            assert(folded.take(n)[k] == range);
        }
        if folded.take(n).contains(range) {
            let k = choose|k: int| 0 <= k < n && #[trigger] folded.take(n)[k] == range;
            if k < n - 1 {
                assert(folded.take(n - 1)[k] == range);
            }
        }
        if own == range {
            assert(folded.take(n)[n - 1] == range);
            if !targets.contains(own.start_line as int) {
                assert(now.last() == range);
            }
        }
        if before.contains(range) {
            let k = choose|k: int| 0 <= k < before.len() && before[k] == range;
            assert(now[k] == range);
        }
        if now.contains(range) {
            let k = choose|k: int| 0 <= k < now.len() && now[k] == range;
            if k < before.len() {
                assert(before[k] == range);
            }
        }
    }
}

/// Folding keeps what is folded and adds the range that starts at the target, where
/// there is one.
#[verifier::rlimit(30)]
pub proof fn law_what_is_folded(
    candidates: Seq<FoldRange>,
    folded: Seq<FoldRange>,
    target: int,
    range: FoldRange,
    i: int,
)
    requires
        0 <= i < candidates.len(),
        candidates[i].start_line == target,
        forall|j: int| 0 <= j < i ==> (#[trigger] candidates[j]).start_line != target,
    ensures
        ({
            let after = folding::with_folds(candidates, folded, seq![target], 1);
            &&& after.len() == folded.len() + 1
            &&& after.contains(range) <==> folded.contains(range) || range == candidates[i]
        }),
{
    let targets = seq![target];
    lemma_candidate_at(candidates, target, i, 0);
    let at = folding::fold_position(folded, target, folded.len() as int);
    lemma_position(folded, target, folded.len() as int);
    assert(folding::with_folds(candidates, folded, targets, 0) == folded);
    let after = folding::with_folds(candidates, folded, targets, 1);
    assert(targets[0] == target);
    assert(after == folded.insert(at, candidates[i]));
    assert(after[at] == candidates[i]);
    if folded.contains(range) {
        let k = choose|k: int| 0 <= k < folded.len() && folded[k] == range;
        if k < at {
            assert(after[k] == range);
        } else {
            assert(after[k + 1] == range);
        }
    }
    if after.contains(range) {
        let k = choose|k: int| 0 <= k < after.len() && after[k] == range;
        if k < at {
            assert(folded[k] == range);
        } else if k > at {
            assert(folded[k - 1] == range);
        }
    }
}

proof fn lemma_candidate_at(candidates: Seq<FoldRange>, target: int, i: int, from: int)
    requires
        0 <= from <= i < candidates.len(),
        candidates[i].start_line == target,
        forall|j: int| 0 <= j < i ==> (#[trigger] candidates[j]).start_line != target,
    ensures
        folding::candidate_at(candidates, target, from) == Some(candidates[i]),
    decreases i - from,
{
    if from < i {
        assert(candidates[from].start_line != target);
        lemma_candidate_at(candidates, target, i, from + 1);
    }
}

proof fn lemma_position(folded: Seq<FoldRange>, line: int, n: int)
    requires
        0 <= n <= folded.len(),
    ensures
        0 <= folding::fold_position(folded, line, n) <= n,
    decreases n,
{
    if n > 0 {
        lemma_position(folded, line, n - 1);
    }
}

/// Of rows that read the same the first stays: a row of the block is kept where none
/// before it in the block reads like it.
pub proof fn law_first_of_equal_rows(t: Seq<u8>, first: int, last: int, row: int)
    ensures
        deduplicate::retained_rows(t, first, last).contains(row) <==> first <= row <= last
            && forall|r: int|
            first <= r < row ==> #[trigger] text::content_bytes(t, r) != text::content_bytes(t, row),
    decreases last - first + 1,
{
    let rows = deduplicate::retained_rows(t, first, last);
    if first <= last {
        law_first_of_equal_rows(t, first, last - 1, row);
        let before = deduplicate::retained_rows(t, first, last - 1);
        if before.contains(row) {
            let k = choose|k: int| 0 <= k < before.len() && before[k] == row;
            assert(rows[k] == row);
        }
        if rows.contains(row) {
            let k = choose|k: int| 0 <= k < rows.len() && rows[k] == row;
            if k < before.len() {
                assert(before[k] == row);
            }
        }
        if row == last && !deduplicate::occurs_in(t, first, last - 1, last) {
            assert(rows.last() == last);
        }
    }
}

/// A single selection within one row has the whole document deduplicated; one over
/// several rows has all the rows that it touches.
pub proof fn law_rows_to_deduplicate(t: Seq<u8>, selection: EditorSelection)
    requires
        selection.range.start <= selection.range.end <= t.len(),
        text::is_boundary(t, selection.range.start as int),
        text::is_boundary(t, selection.range.end as int),
    ensures
        ({
            let first = text_laws::feeds(t.take(selection.range.start as int));
            let last = text_laws::feeds(t.take(selection.range.end as int));
            deduplicate::deduplicate_rows_of(t, seq![selection], 0) == if first == last {
                (0int, text_laws::feeds(t))
            } else {
                (first, last)
            }
        }),
{
    let start = selection.range.start as int;
    let end = selection.range.end as int;
    assert(seq![selection][0] == selection);
    text::lemma_floor_boundary(t, start);
    text::lemma_floor_boundary(t, end);
    text_laws::lemma_feeds(t, start);
    text_laws::lemma_feeds(t, end);
    text_laws::lemma_feeds(t, t.len() as int);
    assert(t.take(t.len() as int) =~= t);
}

} // verus!
