//! Where the rows of a text lie, and where its offsets go when it is edited.

use crate::edit;
use crate::text;
use crate::transaction;
use vstd::prelude::*;

verus! {

/// The number of line feeds.
pub open spec fn feeds(x: Seq<u8>) -> int
    decreases x.len(),
{
    if x.len() == 0 {
        0
    } else {
        feeds(x.drop_last()) + if x.last() == 10 {
            1int
        } else {
            0int
        }
    }
}

/// Nothing, or something that ends with a line feed.
pub open spec fn ends_row(x: Seq<u8>) -> bool {
    x.len() == 0 || x.last() == 10
}

/// Nothing, or something that begins with a line feed or with a carriage return and a
/// line feed.
pub open spec fn begins_with_ending(y: Seq<u8>) -> bool {
    y.len() == 0 || y[0] == 10 || (y.len() > 1 && y[0] == 13 && y[1] == 10)
}

/// The text of one row: no line feed, and no carriage return at its end.
pub open spec fn is_row_text(line: Seq<u8>) -> bool {
    &&& forall|i: int| 0 <= i < line.len() ==> #[trigger] line[i] != 10
    &&& line.len() > 0 ==> line.last() != 13
}

pub proof fn lemma_feeds(t: Seq<u8>, n: int)
    requires
        0 <= n <= t.len(),
    ensures
        text::newlines(t, n) == feeds(t.take(n)),
    decreases n,
{
    if n > 0 {
        lemma_feeds(t, n - 1);
        assert(t.take(n).drop_last() =~= t.take(n - 1));
        assert(t.take(n).last() == t[n - 1]);
    }
}

pub proof fn lemma_start_of_row(t: Seq<u8>, p: int)
    requires
        0 <= p <= t.len(),
        p == 0 || t[p - 1] == 10,
    ensures
        text::line_start(t, text::newlines(t, p)) == p,
        0 <= text::newlines(t, p) < text::line_count(t),
{
    let r = text::newlines(t, p);
    text::lemma_newlines_monotonic(t, p, t.len() as int);
    text::lemma_newlines_bound(t, p);
    text::lemma_line_start(t, r);
    let start = text::line_start(t, r);
    if start < p {
        text::lemma_newlines_monotonic(t, start, p - 1);
    } else if p < start {
        if r == 0 {
            assert(start == 0);
        }
        text::lemma_newlines_monotonic(t, p, start - 1);
    }
}

proof fn lemma_end_of_row(t: Seq<u8>, p: int, e: int)
    requires
        0 <= p <= e <= t.len(),
        e == t.len() || t[e] == 10,
        forall|i: int| p <= i < e ==> #[trigger] t[i] != 10,
    ensures
        text::line_end_from(t, p) == e,
    decreases e - p,
{
    if p < e {
        assert(t[p] != 10);
        lemma_end_of_row(t, p + 1, e);
    }
}

/// A row is what stands between two line feeds: its number is that of the line feeds
/// before it, and what it reads goes without a carriage return before the line feed.
#[verifier::rlimit(30)]
pub proof fn law_row(x: Seq<u8>, line: Seq<u8>, y: Seq<u8>, o: int)
    requires
        ends_row(x),
        is_row_text(line),
        begins_with_ending(y),
    ensures
        ({
            let t = x + line + y;
            let row = feeds(x);
            &&& 0 <= row < text::line_count(t)
            &&& text::line_start(t, row) == x.len()
            &&& text::content_bytes(t, row) == line
            &&& x.len() <= o <= x.len() + line.len() && text::is_boundary(t, o) ==> text::row_at(t, o)
                == row
            &&& text::line_count(t) == feeds(t) + 1
            &&& text::line_bytes(t, row) == line + if y.len() > 0 && y[0] == 13 {
                seq![13u8]
            } else {
                Seq::empty()
            }
            &&& y.len() == 0 ==> row + 1 == text::line_count(t)
            &&& y.len() > 0 ==> row + 1 < text::line_count(t) && text::line_start(t, row + 1)
                == x.len() + line.len() + if y[0] == 13 {
                2int
            } else {
                1int
            }
        }),
{
    let t = x + line + y;
    let p = x.len() as int;
    let e = if y.len() > 0 && y[0] == 13 {
        p + line.len() + 1
    } else {
        p + line.len()
    };
    assert(t.take(p) =~= x);
    lemma_feeds(t, p);
    if p > 0 {
        assert(t[p - 1] == x.last());
    }
    lemma_start_of_row(t, p);
    assert forall|i: int| p <= i < e implies #[trigger] t[i] != 10 by {
        if i < p + line.len() {
            assert(t[i] == line[i - p]);
        } else {
            assert(t[i] == y[0]);
        }
    }
    if y.len() > 0 {
        if y[0] == 13 {
            assert(t[e] == y[1]);
        } else {
            assert(t[e] == y[0]);
        }
    }
    lemma_end_of_row(t, p, e);
    let whole = text::line_bytes(t, feeds(x));
    if y.len() > 0 && y[0] == 13 {
        assert(whole.last() == 13);
        assert(whole.drop_last() =~= line);
    } else {
        assert(whole =~= line);
    }
    if p <= o <= p + line.len() && text::is_boundary(t, o) {
        text::lemma_floor_boundary(t, o);
        text::lemma_newlines_gap(t, p, o);
    }
    assert(t.take(t.len() as int) =~= t);
    lemma_feeds(t, t.len() as int);
    if y.len() > 0 {
        text::lemma_newlines_gap(t, p, e);
        assert(text::newlines(t, e + 1) == text::newlines(t, e) + 1);
        lemma_start_of_row(t, e + 1);
    } else {
        text::lemma_newlines_gap(t, p, e);
    }
}

/// An offset goes with its text: before the edit it stays, behind it moves by what the
/// text grew, and inside what was replaced it keeps its distance as far as the new text
/// reaches. At an insertion it stays, or goes behind it where that is asked.
pub proof fn law_offset_after_edit(start: int, end: int, new: Seq<u8>, offset: int, eager: bool)
    requires
        0 <= start <= end,
    ensures
        ({
            let to = edit::shifted(seq![(start, end, new)], offset, eager, 0, 0);
            &&& offset < start ==> to == offset
            &&& offset > end ==> to == offset + new.len() - (end - start)
            &&& start < end && offset == end ==> to == start + new.len()
            &&& start < offset < end ==> to == if offset - start <= new.len() {
                offset
            } else {
                start + new.len()
            }
            &&& start < end && offset == start ==> to == start
            &&& start == end && offset == start ==> to == if eager {
                start + new.len()
            } else {
                start
            }
        }),
{
    reveal_with_fuel(edit::shifted, 3);
}

/// What stands behind an edit reads the same where its offsets went, and so does what
/// stands before it.
pub proof fn law_text_around_edit(x: Seq<u8>, m: Seq<u8>, y: Seq<u8>, new: Seq<u8>)
    ensures
        ({
            let start = x.len() as int;
            let end = start + m.len();
            edit::applied(x + m + y, seq![(start, end, new)]) == x + new + y
        }),
{
    let start = x.len() as int;
    let end = start + m.len();
    let edits = seq![(start, end, new)];
    assert(edits.drop_last().len() == 0);
    assert(edit::replaced(x + m + y, edits.last()) =~= x + new + y);
    reveal_with_fuel(edit::applied, 2);
}

/// By how much the first `n` edits make the text longer.
pub open spec fn grown_by(edits: Seq<(int, int, Seq<u8>)>, n: int) -> int
    decreases n,
{
    if n <= 0 {
        0
    } else {
        grown_by(edits, n - 1) + edits[n - 1].2.len() - (edits[n - 1].1 - edits[n - 1].0)
    }
}

proof fn lemma_grown_by(edits: Seq<(int, int, Seq<u8>)>, n: int)
    ensures
        grown_by(edits, n) == edit::growth(edits, n),
    decreases n,
{
    if n > 0 {
        lemma_grown_by(edits, n - 1);
    }
}

proof fn lemma_grown_before(edits: Seq<(int, int, Seq<u8>)>, n: int)
    requires
        n < edits.len(),
    ensures
        grown_by(edits.drop_last(), n) == grown_by(edits, n),
    decreases n,
{
    if n > 0 {
        lemma_grown_before(edits, n - 1);
    }
}

#[verifier::rlimit(30)]
proof fn lemma_behind_edits(t: Seq<u8>, edits: Seq<(int, int, Seq<u8>)>, x: int, y: int)
    requires
        edit::edits_ordered(edits, t.len() as int),
        0 <= x <= y <= t.len(),
        forall|i: int| 0 <= i < edits.len() ==> (#[trigger] edits[i]).1 <= x,
    ensures
        ({
            let after = edit::applied(t, edits);
            let d = grown_by(edits, edits.len() as int);
            &&& 0 <= x + d
            &&& y + d <= after.len()
            &&& after.subrange(x + d, y + d) == t.subrange(x, y)
        }),
    decreases edits.len(),
{
    if edits.len() > 0 {
        let n = edits.len() - 1;
        let last = edits.last();
        let init = edits.drop_last();
        let next = edit::replaced(t, last);
        let d = last.2.len() - (last.1 - last.0);
        assert(edits[n] == last);
        edit::lemma_reading(t, last, x, y);
        assert forall|i: int| 0 <= i < init.len() implies 0 <= (#[trigger] init[i]).0 <= init[i].1
            <= next.len() by {
            assert(init[i] == edits[i]);
            assert(edits[i].1 <= edits[n].0);
        }
        assert forall|i: int, j: int|
            #![trigger init[i], init[j]]
            0 <= i < j < init.len() implies init[i].1 <= init[j].0 by {
            assert(init[i] == edits[i] && init[j] == edits[j]);
        }
        assert forall|i: int| 0 <= i < init.len() implies (#[trigger] init[i]).1 <= x + d by {
            assert(init[i] == edits[i]);
            assert(edits[i].1 <= edits[n].0);
        }
        lemma_behind_edits(next, init, x + d, y + d);
        lemma_grown_before(edits, n);
    }
}

/// After several edits each new text stands in its place, and the caret behind it
/// stands right there.
#[verifier::rlimit(30)]
pub proof fn law_insertions_are_read(t: Seq<u8>, edits: Seq<(int, int, Seq<u8>)>, p: int)
    requires
        edit::edits_ordered(edits, t.len() as int),
        0 <= p < edits.len(),
    ensures
        ({
            let after = edit::applied(t, edits);
            let start = edits[p].0 + grown_by(edits, p);
            let end = start + edits[p].2.len();
            &&& 0 <= start <= end <= after.len()
            &&& after.subrange(start, end) == edits[p].2
            &&& after.len() <= usize::MAX ==> transaction::caret_behind(edits, p).range.start == end
                && transaction::caret_behind(edits, p).range.end == end
        }),
    decreases edits.len(),
{
    let n = edits.len() - 1;
    let last = edits.last();
    let init = edits.drop_last();
    let next = edit::replaced(t, last);
    assert(edits[n] == last);
    assert forall|i: int| 0 <= i < init.len() implies 0 <= (#[trigger] init[i]).0 <= init[i].1
        <= last.0 by {
        assert(init[i] == edits[i]);
        assert(edits[i].1 <= edits[n].0);
    }
    assert forall|i: int, j: int|
        #![trigger init[i], init[j]]
        0 <= i < j < init.len() implies init[i].1 <= init[j].0 by {
        assert(init[i] == edits[i] && init[j] == edits[j]);
    }
    lemma_grown_by(edits, p);
    if p == n {
        let x = last.0;
        let y = last.0 + last.2.len();
        assert(next.subrange(x, y) =~= last.2);
        lemma_behind_edits(next, init, x, y);
        lemma_grown_before(edits, n);
    } else {
        assert(init[p] == edits[p]);
        law_insertions_are_read(next, init, p);
        lemma_grown_before(edits, p);
    }
}

/// What stands before, between and behind the edits stays.
#[verifier::rlimit(30)]
pub proof fn law_rest_is_read(
    t: Seq<u8>,
    edits: Seq<(int, int, Seq<u8>)>,
    p: int,
    x: int,
    y: int,
)
    requires
        edit::edits_ordered(edits, t.len() as int),
        0 <= p <= edits.len(),
        0 <= x <= y <= t.len(),
        forall|i: int| 0 <= i < p ==> (#[trigger] edits[i]).1 <= x,
        forall|i: int| p <= i < edits.len() ==> y <= (#[trigger] edits[i]).0,
    ensures
        ({
            let after = edit::applied(t, edits);
            let d = grown_by(edits, p);
            &&& 0 <= x + d
            &&& y + d <= after.len()
            &&& after.subrange(x + d, y + d) == t.subrange(x, y)
        }),
    decreases edits.len(),
{
    if p == edits.len() {
        lemma_behind_edits(t, edits, x, y);
    } else {
        let n = edits.len() - 1;
        let last = edits.last();
        let init = edits.drop_last();
        let next = edit::replaced(t, last);
        assert(edits[n] == last);
        edit::lemma_reading(t, last, x, y);
        assert forall|i: int| 0 <= i < init.len() implies 0 <= (#[trigger] init[i]).0 <= init[i].1
            <= next.len() by {
            assert(init[i] == edits[i]);
            assert(edits[i].1 <= edits[n].0);
        }
        assert forall|i: int, j: int|
            #![trigger init[i], init[j]]
            0 <= i < j < init.len() implies init[i].1 <= init[j].0 by {
            assert(init[i] == edits[i] && init[j] == edits[j]);
        }
        assert forall|i: int| 0 <= i < p implies (#[trigger] init[i]).1 <= x by {
            assert(init[i] == edits[i]);
        }
        assert forall|i: int| p <= i < init.len() implies y <= (#[trigger] init[i]).0 by {
            assert(init[i] == edits[i]);
        }
        law_rest_is_read(next, init, p, x, y);
        lemma_grown_before(edits, p);
    }
}

proof fn lemma_shifted(
    edits: Seq<(int, int, Seq<u8>)>,
    o: int,
    eager: bool,
    p: int,
    from: int,
    delta: int,
)
    requires
        0 <= from <= p <= edits.len(),
        forall|i: int| 0 <= i < edits.len() ==> (#[trigger] edits[i]).0 <= edits[i].1,
        forall|i: int| 0 <= i < p ==> (#[trigger] edits[i]).1 <= o,
        forall|i: int|
            0 <= i < p && (#[trigger] edits[i]).0 == edits[i].1 ==> eager || edits[i].0 < o,
        p < edits.len() ==> o < edits[p].0,
        delta == grown_by(edits, from),
    ensures
        edit::shifted(edits, o, eager, from, delta) == o + grown_by(edits, p),
    decreases p - from,
{
    if from < p {
        let e = edits[from];
        assert(e.1 <= o);
        assert(grown_by(edits, from + 1) == grown_by(edits, from) + e.2.len() - (e.1 - e.0));
        lemma_shifted(edits, o, eager, p, from + 1, grown_by(edits, from + 1));
    }
}

/// An offset that lies in none of several edits moves by what those before it make the
/// text longer.
pub proof fn law_offset_after_edits(
    edits: Seq<(int, int, Seq<u8>)>,
    o: int,
    eager: bool,
    p: int,
)
    requires
        0 <= p <= edits.len(),
        forall|i: int| 0 <= i < edits.len() ==> (#[trigger] edits[i]).0 <= edits[i].1,
        forall|i: int| 0 <= i < p ==> (#[trigger] edits[i]).1 <= o,
        forall|i: int|
            0 <= i < p && (#[trigger] edits[i]).0 == edits[i].1 ==> eager || edits[i].0 < o,
        p < edits.len() ==> o < edits[p].0,
    ensures
        edit::shifted(edits, o, eager, 0, 0) == o + grown_by(edits, p),
{
    lemma_shifted(edits, o, eager, p, 0, 0);
}

} // verus!
