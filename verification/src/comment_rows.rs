//! What adding line comments does to the rows of a text, and that it can be
//! taken back.

use crate::comment;
use crate::cursor::EditorSelection;
use crate::edit;
use crate::insertions;
use crate::line_operations as lines;
use crate::text;
use vstd::prelude::*;

verus! {

/// The relevant of the first `n` rows.
spec fn relevant_rows(t: Seq<u8>, rows: Seq<int>, only_blank: bool, n: int) -> Seq<int>
    decreases n,
{
    if n <= 0 {
        Seq::empty()
    } else {
        let before = relevant_rows(t, rows, only_blank, n - 1);
        if comment::is_relevant(t, rows[n - 1], only_blank) {
            before.push(rows[n - 1])
        } else {
            before
        }
    }
}

/// The columns at which the rows are commented.
spec fn comment_columns(t: Seq<u8>, rows: Seq<int>, target: int, size: int) -> Seq<int> {
    Seq::new(
        rows.len(),
        |j: int|
            {
                let s = text::content_bytes(t, rows[j]);
                comment::column_offset(s, 0, comment::indentation_len(s), target, size)
            },
    )
}

/// A token that starts with text and stays within a line.
pub open spec fn is_plain_token(token: Seq<u8>) -> bool {
    &&& token.len() > 0
    &&& token[0] != 32 && token[0] != 9
    &&& forall|i: int| 0 <= i < token.len() ==> token[i] != 10
}

proof fn lemma_relevant(t: Seq<u8>, rows: Seq<int>, only_blank: bool, n: int)
    requires
        insertions::are_rows(t, rows),
        0 <= n <= rows.len(),
    ensures
        insertions::are_rows(t, relevant_rows(t, rows, only_blank, n)),
        relevant_rows(t, rows, only_blank, n).len() > 0 ==> n > 0 && relevant_rows(
            t,
            rows,
            only_blank,
            n,
        ).last() <= rows[n - 1],
        forall|j: int|
            #![trigger relevant_rows(t, rows, only_blank, n)[j]]
            0 <= j < relevant_rows(t, rows, only_blank, n).len() ==> comment::is_relevant(
                t,
                relevant_rows(t, rows, only_blank, n)[j],
                only_blank,
            ),
    decreases n,
{
    if n > 0 {
        lemma_relevant(t, rows, only_blank, n - 1);
        let before = relevant_rows(t, rows, only_blank, n - 1);
        let after = relevant_rows(t, rows, only_blank, n);
        if n > 1 {
            assert(rows[n - 2] < rows[n - 1]);
        }
        if comment::is_relevant(t, rows[n - 1], only_blank) {
            assert forall|j: int| #![trigger after[j]] 0 <= j < after.len() implies 0 <= after[j]
                < text::line_count(t) by {
                if j < before.len() {
                    assert(after[j] == before[j]);
                }
            }
            assert forall|i: int, j: int| #![trigger after[i], after[j]] 0 <= i < j
                < after.len() implies after[i] < after[j] by {
                if j < before.len() {
                    assert(after[i] == before[i] && after[j] == before[j]);
                } else {
                    assert(after[i] == before[i]);
                    assert(before[i] <= before[before.len() - 1]);
                }
            }
        }
    }
}

/// Which rows are relevant.
proof fn lemma_relevant_contains(
    t: Seq<u8>,
    rows: Seq<int>,
    only_blank: bool,
    n: int,
    i: int,
)
    requires
        0 <= i < n <= rows.len(),
        comment::is_relevant(t, rows[i], only_blank),
    ensures
        relevant_rows(t, rows, only_blank, n).contains(rows[i]),
    decreases n,
{
    let before = relevant_rows(t, rows, only_blank, n - 1);
    let after = relevant_rows(t, rows, only_blank, n);
    if i < n - 1 {
        lemma_relevant_contains(t, rows, only_blank, n - 1, i);
        let j = choose|j: int| 0 <= j < before.len() && before[j] == rows[i];
        assert(after[j] == rows[i]);
    } else {
        assert(after[before.len() as int] == rows[i]);
    }
}

proof fn lemma_column(s: Seq<u8>, n: int, len: int, target: int, size: int)
    requires
        0 <= n <= len,
    ensures
        n <= comment::column_offset(s, n, len, target, size) <= len,
    decreases len - n,
{
    if n < len {
        lemma_column(s, n + 1, len, target, size);
    }
}

/// The insertions of comments are those of the relevant rows.
proof fn lemma_comment_edits(
    t: Seq<u8>,
    rows: Seq<int>,
    only_blank: bool,
    target: int,
    size: int,
    token: Seq<u8>,
    n: int,
)
    requires
        0 <= n <= rows.len(),
    ensures
        ({
            let marked = relevant_rows(t, rows, only_blank, n);
            comment::comment_edits(t, rows, only_blank, target, size, token, n) == insertions::insertions(
                t,
                marked,
                comment_columns(t, marked, target, size),
                token.push(32),
            )
        }),
    decreases n,
{
    let marked = relevant_rows(t, rows, only_blank, n);
    let edits = insertions::insertions(t, marked, comment_columns(t, marked, target, size), token.push(32));
    if n > 0 {
        lemma_comment_edits(t, rows, only_blank, target, size, token, n - 1);
        let before = relevant_rows(t, rows, only_blank, n - 1);
        if comment::is_relevant(t, rows[n - 1], only_blank) {
            let earlier = insertions::insertions(
                t,
                before,
                comment_columns(t, before, target, size),
                token.push(32),
            );
            assert forall|j: int| 0 <= j < earlier.len() implies earlier[j] == edits[j] by {
                assert(marked[j] == before[j]);
            }
            assert(comment::comment_edits(t, rows, only_blank, target, size, token, n) =~= edits);
        }
    } else {
        assert(edits =~= Seq::empty());
    }
}

/// The indentation of a commented row, and what taking the comment back removes.
proof fn lemma_commented(s: Seq<u8>, k: int, token: Seq<u8>)
    requires
        is_plain_token(token),
        0 <= k <= comment::indentation_len(s),
    ensures
        ({
            let c = s.take(k) + token.push(32) + s.skip(k);
            &&& comment::indentation_len(c) == k
            &&& comment::is_commented(c, token)
            &&& k + token.len() < c.len() && c[k + token.len()] == 32
        }),
{
    comment::lemma_blank_end(s, 0);
    let c = s.take(k) + token.push(32) + s.skip(k);
    comment::lemma_blank_end(c, 0);
    assert(c[k] == token[0]);
    let end = comment::blank_end(c, 0);
    if end < k {
        assert(c[end] == s[end]);
    } else if end > k {
        assert(c[k] == 32 || c[k] == 9);
    }
    assert(c.subrange(k, k + token.len()) =~= token);
    assert(c[k + token.len()] == token.push(32)[token.len() as int]);
}

/// A text in which the relevant rows are commented.
spec fn is_commented_text(
    t: Seq<u8>,
    after: Seq<u8>,
    marked: Seq<int>,
    columns: Seq<int>,
    token: Seq<u8>,
) -> bool {
    insertions::is_partly_inserted(t, after, marked, columns, token.push(32), 0)
}

/// The relevant of fewer rows come first among those of all.
proof fn lemma_relevant_prefix(t: Seq<u8>, rows: Seq<int>, only_blank: bool, n: int)
    requires
        0 <= n <= rows.len(),
    ensures
        ({
            let all = relevant_rows(t, rows, only_blank, rows.len() as int);
            let marked = relevant_rows(t, rows, only_blank, n);
            marked.len() <= all.len() && marked == all.take(marked.len() as int)
        }),
    decreases rows.len() - n,
{
    let all = relevant_rows(t, rows, only_blank, rows.len() as int);
    let marked = relevant_rows(t, rows, only_blank, n);
    if n < rows.len() {
        lemma_relevant_prefix(t, rows, only_blank, n + 1);
        let next = relevant_rows(t, rows, only_blank, n + 1);
        assert(marked =~= next.take(marked.len() as int));
        assert(marked =~= all.take(marked.len() as int));
    } else {
        assert(marked =~= all.take(marked.len() as int));
    }
}

/// Taking the comments back removes what was inserted.
proof fn lemma_uncommented(
    t: Seq<u8>,
    after: Seq<u8>,
    rows: Seq<int>,
    only_blank: bool,
    target: int,
    size: int,
    token: Seq<u8>,
    n: int,
)
    requires
        insertions::are_rows(t, rows),
        is_plain_token(token),
        0 <= n <= rows.len(),
        ({
            let marked = relevant_rows(t, rows, only_blank, rows.len() as int);
            is_commented_text(t, after, marked, comment_columns(t, marked, target, size), token)
        }),
    ensures
        ({
            let all = relevant_rows(t, rows, only_blank, rows.len() as int);
            let marked = relevant_rows(t, rows, only_blank, n);
            let whole = insertions::removals(
                insertions::insertions(t, all, comment_columns(t, all, target, size), token.push(32)),
                token.len() as int + 1,
            );
            comment::uncomment_edits(after, rows, token, n) == whole.take(marked.len() as int)
        }),
    decreases n,
{
    let all = relevant_rows(t, rows, only_blank, rows.len() as int);
    let columns = comment_columns(t, all, target, size);
    let marked = relevant_rows(t, rows, only_blank, n);
    let len = token.len() as int + 1;
    let whole = insertions::removals(insertions::insertions(t, all, columns, token.push(32)), len);
    if n > 0 {
        lemma_uncommented(t, after, rows, only_blank, target, size, token, n - 1);
        let before = relevant_rows(t, rows, only_blank, n - 1);
        let row = rows[n - 1];
        lemma_relevant_prefix(t, rows, only_blank, n);
        lemma_relevant(t, rows, only_blank, rows.len() as int);
        if comment::is_relevant(t, row, only_blank) {
            let j = before.len() as int;
            assert(marked[j] == row);
            assert(all[j] == row);
            lemma_marked_row(t, after, all, target, size, token, j);
            assert(whole.take(j + 1) =~= whole.take(j).push(whole[j]));
        } else {
            assert(!all.contains(row)) by {
                if all.contains(row) {
                    let j = choose|j: int| 0 <= j < all.len() && all[j] == row;
                    assert(comment::is_relevant(t, all[j], only_blank));
                }
            }
            assert(all.skip(0) =~= all);
            assert(0 <= rows[n - 1] < text::line_count(t));
            assert(text::content_bytes(after, row) == text::content_bytes(t, row));
        }
    } else {
        assert(whole.take(0) =~= Seq::empty());
    }
}

/// What a commented row reads, and the edit that takes its comment back.
proof fn lemma_marked_row(
    t: Seq<u8>,
    after: Seq<u8>,
    marked: Seq<int>,
    target: int,
    size: int,
    token: Seq<u8>,
    j: int,
)
    requires
        insertions::are_rows(t, marked),
        is_plain_token(token),
        0 <= j < marked.len(),
        is_commented_text(t, after, marked, comment_columns(t, marked, target, size), token),
    ensures
        comment::is_commented(text::content_bytes(after, marked[j]), token),
        comment::uncomment_edit(after, marked[j], token) == insertions::removals(
            insertions::insertions(t, marked, comment_columns(t, marked, target, size), token.push(32)),
            token.len() as int + 1,
        )[j],
{
    let columns = comment_columns(t, marked, target, size);
    let row = marked[j];
    let s = text::content_bytes(t, row);
    let len = token.len() as int + 1;
    comment::lemma_blank_end(s, 0);
    lemma_column(s, 0, comment::indentation_len(s), target, size);
    lemma_commented(s, columns[j], token);
    insertions::lemma_shift_at(marked, 0, j, len);
    assert(text::content_bytes(after, row) == s.take(columns[j]) + token.push(32) + s.skip(
        columns[j],
    ));
    assert(text::line_start(after, row) == text::line_start(t, row) + j * len);
}

/// Adding line comments to rows and toggling the comments of the same rows
/// again gives the text back. The token starts with text.
pub proof fn law_commenting_is_taken_back(
    t: Seq<u8>,
    rows: Seq<int>,
    token: Seq<u8>,
    size: int,
)
    requires
        insertions::are_rows(t, rows),
        rows.len() > 0,
        is_plain_token(token),
        comment::all_blank(t, rows, rows.len() as int) || !comment::all_commented(
            t,
            rows,
            token,
            rows.len() as int,
        ),
    ensures
        ({
            let after = edit::applied(t, comment::group_edits(t, rows, token, size));
            edit::applied(after, comment::group_edits(after, rows, token, size)) == t
        }),
{
    let n = rows.len() as int;
    let only_blank = comment::all_blank(t, rows, n);
    let least = comment::least_column(t, rows, only_blank, size, n);
    let target = if least is Some {
        least->0
    } else {
        0
    };
    let new = token.push(32);
    let len = token.len() as int + 1;
    let marked = relevant_rows(t, rows, only_blank, n);
    let columns = comment_columns(t, marked, target, size);
    let edits = insertions::insertions(t, marked, columns, new);
    lemma_comment_edits(t, rows, only_blank, target, size, token, n);
    lemma_relevant(t, rows, only_blank, n);
    assert forall|j: int| #![trigger marked[j]] 0 <= j < marked.len() implies 0 <= marked[j]
        < text::line_count(t) && 0 <= columns[j] <= text::content_bytes(t, marked[j]).len() by {
        let s = text::content_bytes(t, marked[j]);
        comment::lemma_blank_end(s, 0);
        lemma_column(s, 0, comment::indentation_len(s), target, size);
    }
    assert(insertions::is_partly_inserted(t, t, marked, columns, new, marked.len() as int)) by {
        assert(marked.skip(marked.len() as int).len() == 0);
    }
    insertions::lemma_inserted(t, t, marked, columns, new, marked.len() as int);
    assert(edits.take(marked.len() as int) =~= edits);
    let after = edit::applied(t, edits);
    lemma_uncommented(t, after, rows, only_blank, target, size, token, n);
    let taken = insertions::removals(edits, len);
    assert(taken.take(marked.len() as int) =~= taken);
    insertions::lemma_places(t, marked, columns, new);
    insertions::lemma_removed(t, edits, new);
    let i = if only_blank {
        0
    } else {
        choose|i: int| 0 <= i < n && !comment::is_blank(text::content_bytes(t, #[trigger] rows[i]))
    };
    assert(comment::is_relevant(t, rows[i], only_blank));
    lemma_relevant_contains(t, rows, only_blank, n, i);
    let at = choose|j: int| 0 <= j < marked.len() && marked[j] == rows[i];
    lemma_marked_row(t, after, marked, target, size, token, at);
    assert(!comment::all_blank(after, rows, n)) by {
        assert(!comment::is_blank(text::content_bytes(after, rows[i])));
    }
    assert forall|k: int| 0 <= k < n implies comment::is_blank(
        text::content_bytes(after, #[trigger] rows[k]),
    ) || comment::is_commented(text::content_bytes(after, rows[k]), token) by {
        if comment::is_relevant(t, rows[k], only_blank) {
            lemma_relevant_contains(t, rows, only_blank, n, k);
            let j = choose|j: int| 0 <= j < marked.len() && marked[j] == rows[k];
            lemma_marked_row(t, after, marked, target, size, token, j);
        } else {
            assert(!marked.contains(rows[k])) by {
                if marked.contains(rows[k]) {
                    let j = choose|j: int| 0 <= j < marked.len() && marked[j] == rows[k];
                    assert(comment::is_relevant(t, marked[j], only_blank));
                }
            }
            assert(marked.skip(0) =~= marked);
        }
    }
}

/// A selection that is alone owns every row that it covers.
proof fn lemma_uncovered(t: Seq<u8>, selections: Seq<EditorSelection>, first: int, last: int)
    ensures
        comment::uncovered_rows(t, selections, 0, first, last) == lines::row_range(first, last),
    decreases last - first + 1,
{
    if first <= last {
        lemma_uncovered(t, selections, first, last - 1);
        assert(lines::row_range(first, last) =~= lines::row_range(first, last - 1).push(last));
    }
}

/// Toggling line comments for a selection that covers a row without one adds
/// them; toggling again for a selection of the same rows gives the text back.
pub proof fn law_toggling_comments_twice(
    t: Seq<u8>,
    selection: EditorSelection,
    token: Seq<u8>,
    indent_size: int,
    next: EditorSelection,
)
    requires
        is_plain_token(token),
        selection.range.start <= selection.range.end <= t.len(),
        ({
            let (first, last) = comment::selection_rows(t, selection)->Some_0;
            let rows = lines::row_range(first, last);
            let after = edit::applied(
                t,
                comment::toggle_line_plan(t, seq![selection], token, indent_size),
            );
            &&& rows.len() <= comment::MAX_LINE_COMMENT_LINES
            &&& comment::all_blank(t, rows, rows.len() as int) || !comment::all_commented(
                t,
                rows,
                token,
                rows.len() as int,
            )
            &&& comment::selection_rows(after, next) == Some((first, last))
        }),
    ensures
        ({
            let after = edit::applied(
                t,
                comment::toggle_line_plan(t, seq![selection], token, indent_size),
            );
            edit::applied(
                after,
                comment::toggle_line_plan(after, seq![next], token, indent_size),
            ) == t
        }),
{
    let (first, last) = comment::selection_rows(t, selection)->Some_0;
    let rows = lines::row_range(first, last);
    let size = if indent_size < 1 {
        1
    } else {
        indent_size
    };
    text::lemma_row_at(t, selection.range.start as int);
    text::lemma_row_at(t, selection.range.end as int);
    text::lemma_row_at_monotonic(t, selection.range.start as int, selection.range.end as int);
    lemma_sole_plan(t, selection, token, indent_size);
    let after = edit::applied(
        t,
        comment::toggle_line_plan(t, seq![selection], token, indent_size),
    );
    lemma_sole_plan(after, next, token, indent_size);
    law_commenting_is_taken_back(t, rows, token, size);
}

/// What toggling plans for a selection that is alone.
proof fn lemma_sole_plan(
    t: Seq<u8>,
    selection: EditorSelection,
    token: Seq<u8>,
    indent_size: int,
)
    requires
        token.len() > 0,
        comment::selection_rows(t, selection) is Some,
        ({
            let (first, last) = comment::selection_rows(t, selection)->Some_0;
            lines::row_range(first, last).len() <= comment::MAX_LINE_COMMENT_LINES
        }),
    ensures
        ({
            let (first, last) = comment::selection_rows(t, selection)->Some_0;
            comment::toggle_line_plan(t, seq![selection], token, indent_size)
                == comment::group_edits(
                t,
                lines::row_range(first, last),
                token,
                if indent_size < 1 {
                    1
                } else {
                    indent_size
                },
            )
        }),
{
    let (first, last) = comment::selection_rows(t, selection)->Some_0;
    let alone = seq![selection];
    lemma_uncovered(t, alone, first, last);
    reveal_with_fuel(comment::owned_count, 2);
    reveal_with_fuel(comment::toggle_line_edits, 2);
    assert(comment::owned_rows(t, alone, 0) == lines::row_range(first, last));
    let size = if indent_size < 1 {
        1
    } else {
        indent_size
    };
    assert(comment::toggle_line_plan(t, alone, token, indent_size) =~= comment::group_edits(
        t,
        lines::row_range(first, last),
        token,
        size,
    ));
}

/// The rows that no selection before covers are rows of the range.
proof fn lemma_uncovered_rows(
    t: Seq<u8>,
    selections: Seq<EditorSelection>,
    n: int,
    first: int,
    last: int,
    row: int,
)
    ensures
        comment::uncovered_rows(t, selections, n, first, last).contains(row) <==> first <= row
            <= last && !comment::covered_before(t, selections, n, row),
    decreases last - first + 1,
{
    let rows = comment::uncovered_rows(t, selections, n, first, last);
    if first <= last {
        let before = comment::uncovered_rows(t, selections, n, first, last - 1);
        lemma_uncovered_rows(t, selections, n, first, last - 1, row);
        if !comment::covered_before(t, selections, n, last) {
            assert(rows == before.push(last));
            assert(rows[before.len() as int] == last);
            if before.contains(row) {
                let k = choose|k: int| 0 <= k < before.len() && before[k] == row;
                assert(rows[k] == row);
            }
            if rows.contains(row) && row != last {
                let k = choose|k: int| 0 <= k < rows.len() && rows[k] == row;
                assert(before[k] == row);
            }
        }
    }
}

/// A row that several selections cover belongs to the first of them, so that
/// its comment is toggled once.
pub proof fn law_row_has_one_owner(
    t: Seq<u8>,
    selections: Seq<EditorSelection>,
    i: int,
    j: int,
    row: int,
)
    requires
        0 <= i < j < selections.len(),
        comment::owned_rows(t, selections, i).contains(row),
    ensures
        !comment::owned_rows(t, selections, j).contains(row),
{
    match comment::selection_rows(t, selections[i]) {
        Some((first, last)) => {
            lemma_uncovered_rows(t, selections, i, first, last, row);
            assert(comment::covers(t, selections[i], row));
        },
        None => {},
    }
    match comment::selection_rows(t, selections[j]) {
        Some((first, last)) => {
            lemma_uncovered_rows(t, selections, j, first, last, row);
        },
        None => {},
    }
}

/// A row that a selection covers belongs to it or to one before.
pub proof fn law_covered_row_has_an_owner(
    t: Seq<u8>,
    selections: Seq<EditorSelection>,
    i: int,
    row: int,
) -> (owner: int)
    requires
        0 <= i < selections.len(),
        comment::covers(t, selections[i], row),
    ensures
        0 <= owner <= i,
        comment::owned_rows(t, selections, owner).contains(row),
    decreases i,
{
    let (first, last) = comment::selection_rows(t, selections[i])->Some_0;
    lemma_uncovered_rows(t, selections, i, first, last, row);
    if comment::covered_before(t, selections, i, row) {
        let k = choose|k: int| 0 <= k < i && comment::covers(t, #[trigger] selections[k], row);
        law_covered_row_has_an_owner(t, selections, k, row)
    } else {
        i
    }
}

} // verus!
