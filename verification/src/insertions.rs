//! The same text put into several rows, and taken out again.

use crate::edit;
use crate::rows;
use crate::text;
use vstd::prelude::*;

verus! {

/// The insertions of `new` into the rows, at the given columns.
pub open spec fn insertions(t: Seq<u8>, rows: Seq<int>, columns: Seq<int>, new: Seq<u8>) -> Seq<
    (int, int, Seq<u8>),
> {
    Seq::new(
        rows.len(),
        |j: int|
            (
                text::line_start(t, rows[j]) + columns[j],
                text::line_start(t, rows[j]) + columns[j],
                new,
            ),
    )
}

/// Rows of the text in ascending order, and a column in each.
pub open spec fn are_places(t: Seq<u8>, rows: Seq<int>, columns: Seq<int>) -> bool {
    &&& rows.len() == columns.len()
    &&& forall|j: int|
        #![trigger rows[j]]
        0 <= j < rows.len() ==> 0 <= rows[j] < text::line_count(t) && 0 <= columns[j]
            <= text::content_bytes(t, rows[j]).len()
    &&& forall|i: int, j: int|
        #![trigger rows[i], rows[j]]
        0 <= i < j < rows.len() ==> rows[i] < rows[j]
}

/// How far the rows from the `m`-th on move the start of `row`.
pub open spec fn shift(rows: Seq<int>, m: int, row: int, len: int) -> int
    decreases rows.len() - m,
{
    if m >= rows.len() {
        0
    } else {
        (if rows[m] < row {
            len
        } else {
            0
        }) + shift(rows, m + 1, row, len)
    }
}

/// The insertions from the `m`-th on have been made.
pub open spec fn is_partly_inserted(
    t: Seq<u8>,
    cur: Seq<u8>,
    rows: Seq<int>,
    columns: Seq<int>,
    new: Seq<u8>,
    m: int,
) -> bool {
    &&& text::line_count(cur) == text::line_count(t)
    &&& forall|r: int|
        #![trigger text::line_start(cur, r)]
        0 <= r < text::line_count(t) ==> text::line_start(cur, r) == text::line_start(t, r) + shift(
            rows,
            m,
            r,
            new.len() as int,
        )
    &&& forall|r: int|
        #![trigger text::content_bytes(cur, r)]
        0 <= r < text::line_count(t) && !rows.skip(m).contains(r) ==> text::content_bytes(cur, r)
            == text::content_bytes(t, r)
    &&& forall|j: int|
        #![trigger rows[j]]
        m <= j < rows.len() ==> text::content_bytes(cur, rows[j]) == text::content_bytes(
            t,
            rows[j],
        ).take(columns[j]) + new + text::content_bytes(t, rows[j]).skip(columns[j])
}

/// Rows in ascending order do not move what lies before them.
pub proof fn lemma_no_shift(rows: Seq<int>, m: int, row: int, len: int)
    requires
        0 <= m,
        forall|j: int| #![trigger rows[j]] m <= j < rows.len() ==> row <= rows[j],
    ensures
        shift(rows, m, row, len) == 0,
    decreases rows.len() - m,
{
    if m < rows.len() {
        lemma_no_shift(rows, m + 1, row, len);
    }
}

/// One more insertion is made.
pub proof fn lemma_insert_step(
    t: Seq<u8>,
    cur: Seq<u8>,
    rows: Seq<int>,
    columns: Seq<int>,
    new: Seq<u8>,
    m: int,
)
    requires
        are_places(t, rows, columns),
        forall|i: int| 0 <= i < new.len() ==> new[i] != 10,
        new.len() > 0 && new.last() != 13,
        0 < m <= rows.len(),
        is_partly_inserted(t, cur, rows, columns, new, m),
    ensures
        is_partly_inserted(
            t,
            edit::replaced(cur, insertions(t, rows, columns, new)[m - 1]),
            rows,
            columns,
            new,
            m - 1,
        ),
{
    let row = rows[m - 1];
    let k = columns[m - 1];
    let len = new.len() as int;
    assert forall|j: int| #![trigger rows[j]] m <= j < rows.len() implies row < rows[j] by {
        assert(rows[m - 1] < rows[j]);
    }
    lemma_no_shift(rows, m, row, len);
    assert(!rows.skip(m).contains(row)) by {
        if rows.skip(m).contains(row) {
            let j = choose|j: int| 0 <= j < rows.skip(m).len() && rows.skip(m)[j] == row;
            assert(rows[m + j] == row);
        }
    }
    assert(text::line_start(cur, row) == text::line_start(t, row));
    assert(text::content_bytes(cur, row) == text::content_bytes(t, row));
    rows::lemma_insert_in_row(cur, row, k, new);
    let next = edit::replaced(cur, insertions(t, rows, columns, new)[m - 1]);
    assert forall|r: int|
        #![trigger text::line_start(next, r)]
        0 <= r < text::line_count(t) implies text::line_start(next, r) == text::line_start(t, r)
        + shift(rows, m - 1, r, len) by {
        assert(text::line_start(cur, r) == text::line_start(t, r) + shift(rows, m, r, len));
    }
    assert forall|r: int| #![trigger text::content_bytes(next, r)] 0 <= r < text::line_count(t)
        && !rows.skip(m - 1).contains(r) implies text::content_bytes(next, r)
        == text::content_bytes(t, r) by {
        assert(rows.skip(m - 1)[0] == row);
        if rows.skip(m).contains(r) {
            let j = choose|j: int| 0 <= j < rows.skip(m).len() && rows.skip(m)[j] == r;
            assert(rows.skip(m - 1)[j + 1] == r);
        }
        assert(text::content_bytes(cur, r) == text::content_bytes(t, r));
    }
    assert forall|j: int| #![trigger rows[j]] m - 1 <= j < rows.len() implies text::content_bytes(
        next,
        rows[j],
    ) == text::content_bytes(t, rows[j]).take(columns[j]) + new + text::content_bytes(
        t,
        rows[j],
    ).skip(columns[j]) by {
        if j > m - 1 {
            assert(text::content_bytes(next, rows[j]) == text::content_bytes(cur, rows[j]));
        }
    }
}

/// The insertions before the `m`-th are made, from the last to the first.
pub proof fn lemma_inserted(
    t: Seq<u8>,
    cur: Seq<u8>,
    rows: Seq<int>,
    columns: Seq<int>,
    new: Seq<u8>,
    m: int,
)
    requires
        are_places(t, rows, columns),
        forall|i: int| 0 <= i < new.len() ==> new[i] != 10,
        new.len() > 0 && new.last() != 13,
        0 <= m <= rows.len(),
        is_partly_inserted(t, cur, rows, columns, new, m),
    ensures
        is_partly_inserted(
            t,
            edit::applied(cur, insertions(t, rows, columns, new).take(m)),
            rows,
            columns,
            new,
            0,
        ),
    decreases m,
{
    let edits = insertions(t, rows, columns, new);
    if m > 0 {
        lemma_insert_step(t, cur, rows, columns, new, m);
        lemma_inserted(t, edit::replaced(cur, edits[m - 1]), rows, columns, new, m - 1);
        assert(edits.take(m).drop_last() =~= edits.take(m - 1));
        assert(edits.take(m).last() == edits[m - 1]);
    } else {
        assert(edits.take(0).len() == 0);
    }
}

/// Insertions at ascending places, each of `new`.
pub open spec fn are_insertions(t: Seq<u8>, edits: Seq<(int, int, Seq<u8>)>, new: Seq<u8>) -> bool {
    &&& forall|j: int|
        #![trigger edits[j]]
        0 <= j < edits.len() ==> 0 <= edits[j].0 <= t.len() && edits[j].1 == edits[j].0
            && edits[j].2 == new
    &&& forall|i: int, j: int|
        #![trigger edits[i], edits[j]]
        0 <= i < j < edits.len() ==> edits[i].0 <= edits[j].0
}

/// The edits that take the insertions back.
pub open spec fn removals(edits: Seq<(int, int, Seq<u8>)>, len: int) -> Seq<(int, int, Seq<u8>)> {
    Seq::new(
        edits.len(),
        |j: int|
            (edits[j].0 + j * len, edits[j].0 + j * len + len, Seq::<u8>::empty()),
    )
}

/// Insertions up to a place leave what lies behind it.
pub proof fn lemma_applied_before(t: Seq<u8>, edits: Seq<(int, int, Seq<u8>)>, new: Seq<u8>, o: int)
    requires
        0 <= o <= t.len(),
        are_insertions(t.take(o), edits, new),
    ensures
        edit::applied(t, edits) == edit::applied(t.take(o), edits) + t.skip(o),
        edit::applied(t.take(o), edits).len() == o + edits.len() * new.len(),
    decreases edits.len(),
{
    let head = t.take(o);
    if edits.len() > 0 {
        let last = edits.last();
        let m = edits.len() - 1;
        assert(last == edits[m]);
        let rest = edits.drop_last();
        let at = last.0;
        let one = edit::replaced(t, last);
        let short = edit::replaced(head, last);
        assert(are_insertions(t.take(at), rest, new)) by {
            assert forall|j: int| #![trigger rest[j]] 0 <= j < rest.len() implies 0 <= rest[j].0
                <= at && rest[j].1 == rest[j].0 && rest[j].2 == new by {
                assert(rest[j] == edits[j]);
                assert(edits[j].0 <= edits[m].0);
            }
            assert forall|i: int, j: int|
                #![trigger rest[i], rest[j]]
                0 <= i < j < rest.len() implies rest[i].0 <= rest[j].0 by {
                assert(rest[i] == edits[i] && rest[j] == edits[j]);
            }
        }
        assert(one.take(at) =~= t.take(at));
        assert(short.take(at) =~= t.take(at));
        lemma_applied_before(one, rest, new, at);
        lemma_applied_before(short, rest, new, at);
        assert(one.skip(at) =~= short.skip(at) + t.skip(o));
        assert(edit::applied(t, edits) =~= edit::applied(head, edits) + t.skip(o));
        assert(short.len() == o + new.len());
        assert(edits.len() * new.len() == rest.len() * new.len() + new.len()) by (nonlinear_arith)
            requires
                edits.len() == rest.len() + 1,
        ;
    } else {
        assert(t =~= head + t.skip(o));
        assert(edits.len() * new.len() == 0) by (nonlinear_arith)
            requires
                edits.len() == 0,
        ;
    }
}

/// Taking insertions back leaves the text as it was.
pub proof fn lemma_removed(t: Seq<u8>, edits: Seq<(int, int, Seq<u8>)>, new: Seq<u8>)
    requires
        are_insertions(t, edits, new),
    ensures
        edit::applied(edit::applied(t, edits), removals(edits, new.len() as int)) == t,
    decreases edits.len(),
{
    let len = new.len() as int;
    let taken = removals(edits, len);
    if edits.len() > 0 {
        let m = edits.len() - 1;
        let o = edits[m].0;
        let rest = edits.drop_last();
        assert(edits.last() == edits[m]);
        assert forall|j: int| #![trigger rest[j]] 0 <= j < rest.len() implies 0 <= rest[j].0 <= o
            && rest[j].1 == rest[j].0 && rest[j].2 == new by {
            assert(rest[j] == edits[j]);
            assert(edits[j].0 <= edits[m].0);
        }
        assert forall|i: int, j: int| #![trigger rest[i], rest[j]] 0 <= i < j < rest.len() implies rest[i].0
            <= rest[j].0 by {
            assert(rest[i] == edits[i] && rest[j] == edits[j]);
        }
        let one = edit::replaced(t, edits[m]);
        assert(one.take(o) =~= t.take(o));
        lemma_applied_before(one, rest, new, o);
        lemma_applied_before(t, rest, new, o);
        let all = edit::applied(t, edits);
        let before = edit::applied(t.take(o), rest);
        assert(one.skip(o) =~= new + t.skip(o));
        assert(all == before + (new + t.skip(o)));
        assert(taken[m].0 == before.len());
        assert(edit::replaced(all, taken[m]) =~= edit::applied(t, rest));
        assert(taken.drop_last() =~= removals(rest, len));
        assert(taken.last() == taken[m]);
        lemma_removed(t, rest, new);
    }
}

/// Rows of the text in ascending order.
pub open spec fn are_rows(t: Seq<u8>, rows: Seq<int>) -> bool {
    &&& forall|j: int|
        #![trigger rows[j]]
        0 <= j < rows.len() ==> 0 <= rows[j] < text::line_count(t)
    &&& forall|i: int, j: int|
        #![trigger rows[i], rows[j]]
        0 <= i < j < rows.len() ==> rows[i] < rows[j]
}

/// How far earlier rows move one of them.
pub proof fn lemma_shift_at(rows: Seq<int>, m: int, j: int, len: int)
    requires
        0 <= m <= j < rows.len(),
        forall|a: int, b: int|
            #![trigger rows[a], rows[b]]
            0 <= a < b < rows.len() ==> rows[a] < rows[b],
    ensures
        shift(rows, m, rows[j], len) == (j - m) * len,
    decreases j - m,
{
    if m < j {
        lemma_shift_at(rows, m + 1, j, len);
        assert(rows[m] < rows[j]);
        assert((j - m) * len == (j - (m + 1)) * len + len) by (nonlinear_arith);
    } else {
        assert forall|i: int| #![trigger rows[i]] m <= i < rows.len() implies rows[j] <= rows[i] by {
            if i > j {
                assert(rows[j] < rows[i]);
            }
        }
        lemma_no_shift(rows, m, rows[j], len);
        assert((j - m) * len == 0) by (nonlinear_arith)
            requires
                j == m,
        ;
    }
}

/// The insertions come in the order of the text.
pub proof fn lemma_places(t: Seq<u8>, rows: Seq<int>, columns: Seq<int>, new: Seq<u8>)
    requires
        are_places(t, rows, columns),
    ensures
        are_insertions(t, insertions(t, rows, columns, new), new),
{
    let edits = insertions(t, rows, columns, new);
    assert forall|j: int| #![trigger edits[j]] 0 <= j < edits.len() implies 0 <= edits[j].0
        <= t.len() by {
        text::lemma_line_end(t, rows[j]);
    }
    assert forall|i: int, j: int| #![trigger edits[i], edits[j]] 0 <= i < j < edits.len() implies edits[i].0
        <= edits[j].0 by {
        assert(rows[i] < rows[j]);
        text::lemma_line_end(t, rows[i]);
        text::lemma_line_start_monotonic(t, rows[i] + 1, rows[j]);
        assert(0 <= columns[i] <= text::content_bytes(t, rows[i]).len());
        assert(0 <= columns[j]);
    }
}

} // verus!
