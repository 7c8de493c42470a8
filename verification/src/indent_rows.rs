//! What indenting lines does to the rows of a text, and that outdenting takes
//! it back.

use crate::comment;
use crate::cursor::EditorSelection;
use crate::edit;
use crate::indent;
use crate::indent::TabSize;
use crate::insertions;
use crate::order;
use crate::text;
use vstd::prelude::*;

verus! {

/// Those of the first `n` rows that indenting writes into.
spec fn indented_rows(t: Seq<u8>, selections: Seq<EditorSelection>, rows: Seq<int>, n: int) -> Seq<
    int,
>
    decreases n,
{
    if n <= 0 {
        Seq::empty()
    } else {
        let before = indented_rows(t, selections, rows, n - 1);
        if indent::indents_row(t, selections, true, rows[n - 1]) {
            before.push(rows[n - 1])
        } else {
            before
        }
    }
}

spec fn line_starts(rows: Seq<int>) -> Seq<int> {
    Seq::new(rows.len(), |j: int| 0int)
}

proof fn lemma_indented(t: Seq<u8>, selections: Seq<EditorSelection>, rows: Seq<int>, n: int)
    requires
        insertions::are_rows(t, rows),
        0 <= n <= rows.len(),
    ensures
        insertions::are_rows(t, indented_rows(t, selections, rows, n)),
        indented_rows(t, selections, rows, n).len() > 0 ==> n > 0 && indented_rows(
            t,
            selections,
            rows,
            n,
        ).last() <= rows[n - 1],
        indent::indent_line_keys(t, selections, true, rows, n) == Seq::new(
            indented_rows(t, selections, rows, n).len(),
            |j: int| text::line_start(t, indented_rows(t, selections, rows, n)[j]),
        ),
        forall|j: int|
            #![trigger indented_rows(t, selections, rows, n)[j]]
            0 <= j < indented_rows(t, selections, rows, n).len() ==> indent::indents_row(
                t,
                selections,
                true,
                indented_rows(t, selections, rows, n)[j],
            ),
    decreases n,
{
    let after = indented_rows(t, selections, rows, n);
    let keys = Seq::new(after.len(), |j: int| text::line_start(t, after[j]));
    if n > 0 {
        lemma_indented(t, selections, rows, n - 1);
        let before = indented_rows(t, selections, rows, n - 1);
        if n > 1 {
            assert(rows[n - 2] < rows[n - 1]);
        }
        if indent::indents_row(t, selections, true, rows[n - 1]) {
            assert forall|j: int| #![trigger after[j]] 0 <= j < after.len() implies 0 <= after[j]
                < text::line_count(t) by {
                if j < before.len() {
                    assert(after[j] == before[j]);
                }
            }
            assert forall|i: int, j: int| #![trigger after[i], after[j]] 0 <= i < j
                < after.len() implies after[i] < after[j] by {
                if j < before.len() {
                    assert(after[i] == before[i] && after[j] == before[j]);
                } else {
                    assert(after[i] == before[i]);
                    assert(before[i] <= before[before.len() - 1]);
                }
            }
            assert forall|j: int| 0 <= j < before.len() implies after[j] == before[j] by {}
        }
        assert(indent::indent_line_keys(t, selections, true, rows, n) =~= keys);
    } else {
        assert(indent::indent_line_keys(t, selections, true, rows, n) =~= keys);
    }
}

/// Where every selection stands for its lines, no caret adds an insertion.
proof fn lemma_no_carets(keys: Seq<int>, selections: Seq<EditorSelection>, n: int)
    ensures
        indent::with_carets(keys, selections, true, n) == keys,
    decreases n,
{
    if n > 0 {
        lemma_no_carets(keys, selections, n - 1);
    }
}

/// Indenting lines is an insertion at the start of each row that it writes into.
proof fn lemma_indent_edits(t: Seq<u8>, selections: Seq<EditorSelection>, tab: TabSize)
    requires
        insertions::are_rows(t, indent::line_rows(t, selections, true, selections.len() as int)),
    ensures
        ({
            let rows = indent::line_rows(t, selections, true, selections.len() as int);
            let marked = indented_rows(t, selections, rows, rows.len() as int);
            indent::indent_edits(t, selections, tab, true) == insertions::insertions(
                t,
                marked,
                line_starts(marked),
                tab.indent_bytes(),
            )
        }),
{
    let n = selections.len() as int;
    let rows = indent::line_rows(t, selections, true, n);
    let marked = indented_rows(t, selections, rows, rows.len() as int);
    let keys = indent::indent_line_keys(t, selections, true, rows, rows.len() as int);
    lemma_indented(t, selections, rows, rows.len() as int);
    lemma_no_carets(keys, selections, n);
    let edits = indent::indent_edits(t, selections, tab, true);
    let whole = insertions::insertions(t, marked, line_starts(marked), tab.indent_bytes());
    assert forall|k: int| 0 <= k < keys.len() implies #[trigger] edits[k] == whole[k] by {
        assert(keys[k] == text::line_start(t, marked[k]));
        assert(keys.contains(keys[k]));
    }
    assert(edits =~= whole);
}

/// What is removed from a line that was indented.
proof fn lemma_outdent_len(s: Seq<u8>, tab: TabSize)
    requires
        tab.hard_tabs || tab.tab_size > 0,
    ensures
        indent::outdent_len(tab.indent_bytes() + s, indent::stop_size(tab))
            == tab.indent_bytes().len(),
{
    let unit = tab.indent_bytes();
    let whole = unit + s;
    if tab.hard_tabs {
        assert(whole[0] == unit[0]);
    } else {
        assert(whole[0] == unit[0]);
        lemma_leading_spaces(whole, 0, tab.tab_size as int);
    }
}

proof fn lemma_leading_spaces(s: Seq<u8>, from: int, limit: int)
    requires
        0 <= from <= limit <= s.len(),
        forall|i: int| from <= i < limit ==> s[i] == 32,
    ensures
        indent::leading_spaces(s, from, limit) == limit - from,
    decreases limit - from,
{
    if from < limit {
        lemma_leading_spaces(s, from + 1, limit);
    }
}

/// Outdenting the rows that were indented removes what was inserted.
proof fn lemma_outdented(
    t: Seq<u8>,
    after: Seq<u8>,
    selections: Seq<EditorSelection>,
    rows: Seq<int>,
    tab: TabSize,
    n: int,
)
    requires
        insertions::are_rows(t, rows),
        tab.hard_tabs || tab.tab_size > 0,
        0 <= n <= rows.len(),
        ({
            let marked = indented_rows(t, selections, rows, rows.len() as int);
            insertions::is_partly_inserted(
                t,
                after,
                marked,
                line_starts(marked),
                tab.indent_bytes(),
                0,
            )
        }),
    ensures
        ({
            let all = indented_rows(t, selections, rows, rows.len() as int);
            let marked = indented_rows(t, selections, rows, n);
            let whole = insertions::removals(
                insertions::insertions(t, all, line_starts(all), tab.indent_bytes()),
                tab.indent_bytes().len() as int,
            );
            indent::outdent_edits(after, rows, indent::stop_size(tab), n) == whole.take(
                marked.len() as int,
            )
        }),
    decreases n,
{
    let all = indented_rows(t, selections, rows, rows.len() as int);
    let marked = indented_rows(t, selections, rows, n);
    let unit = tab.indent_bytes();
    let len = unit.len() as int;
    let whole = insertions::removals(
        insertions::insertions(t, all, line_starts(all), unit),
        len,
    );
    if n > 0 {
        lemma_outdented(t, after, selections, rows, tab, n - 1);
        let before = indented_rows(t, selections, rows, n - 1);
        let row = rows[n - 1];
        lemma_indented_prefix(t, selections, rows, n);
        lemma_indented(t, selections, rows, rows.len() as int);
        if indent::indents_row(t, selections, true, row) {
            let j = before.len() as int;
            assert(marked[j] == row);
            assert(all[j] == row);
            let s = text::content_bytes(t, row);
            assert(s.take(0) + unit + s.skip(0) =~= unit + s);
            assert(text::content_bytes(after, all[j]) == unit + s);
            lemma_outdent_len(s, tab);
            insertions::lemma_shift_at(all, 0, j, len);
            assert(text::line_start(after, row) == text::line_start(t, row) + j * len);
            assert(whole.take(j + 1) =~= whole.take(j).push(whole[j]));
        } else {
            assert(!all.contains(row)) by {
                if all.contains(row) {
                    let j = choose|j: int| 0 <= j < all.len() && all[j] == row;
                    assert(indent::indents_row(t, selections, true, all[j]));
                }
            }
            assert(all.skip(0) =~= all);
            assert(0 <= rows[n - 1] < text::line_count(t));
            assert(text::content_bytes(after, row) == text::content_bytes(t, row));
        }
    } else {
        assert(whole.take(0) =~= Seq::empty());
    }
}

/// The indented of fewer rows come first among those of all.
proof fn lemma_indented_prefix(
    t: Seq<u8>,
    selections: Seq<EditorSelection>,
    rows: Seq<int>,
    n: int,
)
    requires
        0 <= n <= rows.len(),
    ensures
        ({
            let all = indented_rows(t, selections, rows, rows.len() as int);
            let marked = indented_rows(t, selections, rows, n);
            marked.len() <= all.len() && marked == all.take(marked.len() as int)
        }),
    decreases rows.len() - n,
{
    let all = indented_rows(t, selections, rows, rows.len() as int);
    let marked = indented_rows(t, selections, rows, n);
    if n < rows.len() {
        lemma_indented_prefix(t, selections, rows, n + 1);
        let next = indented_rows(t, selections, rows, n + 1);
        assert(marked =~= next.take(marked.len() as int));
        assert(marked =~= all.take(marked.len() as int));
    } else {
        assert(marked =~= all.take(marked.len() as int));
    }
}

/// Rows that are added in their places are still rows of the text, ascending.
proof fn lemma_with_range(t: Seq<u8>, rows: Seq<int>, first: int, last: int)
    requires
        insertions::are_rows(t, rows),
        0 <= first,
        last < text::line_count(t),
    ensures
        insertions::are_rows(t, indent::with_range(rows, first, last)),
    decreases last - first + 1,
{
    if first <= last {
        lemma_with_range(t, rows, first, last - 1);
        let before = indent::with_range(rows, first, last - 1);
        order::lemma_with_key(before, last);
        let after = order::with_key(before, last);
        assert forall|j: int| #![trigger after[j]] 0 <= j < after.len() implies 0 <= after[j]
            < text::line_count(t) by {
            assert(after.contains(after[j]));
            if after[j] != last {
                assert(before.contains(after[j]));
            }
        }
    }
}

/// The rows of selections are rows of the text, ascending.
proof fn lemma_line_rows(t: Seq<u8>, selections: Seq<EditorSelection>, n: int)
    ensures
        insertions::are_rows(t, indent::line_rows(t, selections, true, n)),
    decreases n,
{
    if n > 0 {
        lemma_line_rows(t, selections, n - 1);
        let selection = selections[n - 1];
        if comment::selection_rows(t, selection) is Some {
            text::lemma_row_at(t, selection.range.start as int);
            text::lemma_row_at(t, selection.range.end as int);
            let (first, last) = comment::selection_rows(t, selection)->Some_0;
            lemma_with_range(t, indent::line_rows(t, selections, true, n - 1), first, last);
        }
    }
}

/// Indenting the lines of some selections and outdenting those of selections
/// of the same rows gives the text back.
pub proof fn law_outdenting_takes_indenting_back(
    t: Seq<u8>,
    selections: Seq<EditorSelection>,
    tab: TabSize,
    next: Seq<EditorSelection>,
)
    requires
        tab.hard_tabs || tab.tab_size > 0,
        ({
            let after = edit::applied(t, indent::indent_edits(t, selections, tab, true));
            indent::line_rows(after, next, true, next.len() as int) == indent::line_rows(
                t,
                selections,
                true,
                selections.len() as int,
            )
        }),
    ensures
        ({
            let after = edit::applied(t, indent::indent_edits(t, selections, tab, true));
            let rows = indent::line_rows(after, next, true, next.len() as int);
            edit::applied(
                after,
                indent::outdent_edits(after, rows, indent::stop_size(tab), rows.len() as int),
            ) == t
        }),
{
    let rows = indent::line_rows(t, selections, true, selections.len() as int);
    let n = rows.len() as int;
    let marked = indented_rows(t, selections, rows, n);
    let columns = line_starts(marked);
    let unit = tab.indent_bytes();
    let edits = insertions::insertions(t, marked, columns, unit);
    lemma_line_rows(t, selections, selections.len() as int);
    lemma_indent_edits(t, selections, tab);
    lemma_indented(t, selections, rows, n);
    assert(insertions::are_places(t, marked, columns));
    assert(insertions::is_partly_inserted(t, t, marked, columns, unit, marked.len() as int)) by {
        assert(marked.skip(marked.len() as int).len() == 0);
    }
    insertions::lemma_inserted(t, t, marked, columns, unit, marked.len() as int);
    assert(edits.take(marked.len() as int) =~= edits);
    let after = edit::applied(t, edits);
    lemma_outdented(t, after, selections, rows, tab, n);
    let taken = insertions::removals(edits, unit.len() as int);
    assert(taken.take(marked.len() as int) =~= taken);
    insertions::lemma_places(t, marked, columns, unit);
    insertions::lemma_removed(t, edits, unit);
}

} // verus!
