//! What writing blocks of rows anew does to the rows of a text.

use crate::deduplicate;
use crate::edit;
use crate::line_operations as lines;
use crate::line_operations::LineDirection;
use crate::text;
use vstd::prelude::*;

verus! {

pub open spec fn is_ending(ending: Seq<u8>) -> bool {
    ending == seq![10u8] || ending == seq![13u8, 10u8]
}

/// The count of line feeds is that of what is counted.
pub proof fn lemma_newlines_same(t: Seq<u8>, u: Seq<u8>, n: int)
    requires
        forall|i: int| 0 <= i < n ==> t[i] == u[i],
    ensures
        text::newlines(t, n) == text::newlines(u, n),
    decreases n,
{
    if n > 0 {
        lemma_newlines_same(t, u, n - 1);
    }
}

proof fn lemma_newlines_concat(a: Seq<u8>, b: Seq<u8>, k: int)
    requires
        0 <= k <= b.len(),
    ensures
        text::newlines(a + b, a.len() + k) == text::newlines(a, a.len() as int) + text::newlines(
            b,
            k,
        ),
    decreases k,
{
    if k > 0 {
        lemma_newlines_concat(a, b, k - 1);
        assert((a + b)[a.len() + k - 1] == b[k - 1]);
    } else {
        lemma_newlines_same(a + b, a, a.len() as int);
    }
}

/// A row starts where as many line feeds lie before, the last one just before.
pub proof fn lemma_row_starts(t: Seq<u8>, row: int, p: int)
    requires
        0 <= p <= t.len(),
        text::newlines(t, p) == row,
        p == 0 || t[p - 1] == 10,
    ensures
        text::line_start(t, row) == p,
        0 <= row < text::line_count(t),
{
    text::lemma_newlines_bound(t, p);
    text::lemma_newlines_monotonic(t, p, t.len() as int);
    text::lemma_line_start(t, row);
    let s = text::line_start(t, row);
    if s < p {
        text::lemma_newlines_monotonic(t, s, p - 1);
    } else if p < s {
        assert(row > 0 || s == 0);
        text::lemma_newlines_monotonic(t, p, s - 1);
    }
}

/// A row reads from where it starts to the next line feed.
proof fn lemma_row_reads(t: Seq<u8>, row: int, p: int, q: int)
    requires
        0 <= p <= q <= t.len(),
        text::newlines(t, p) == row,
        p == 0 || t[p - 1] == 10,
        forall|i: int| p <= i < q ==> t[i] != 10,
        q == t.len() || t[q] == 10,
    ensures
        text::line_start(t, row) == p,
        text::line_end(t, row) == q,
        text::line_bytes(t, row) == t.subrange(p, q),
        0 <= row < text::line_count(t),
{
    lemma_row_starts(t, row, p);
    text::lemma_line_end_from(t, p);
    let e = text::line_end_from(t, p);
    if e < q {
        assert(t[e] == 10);
    }
}

/// Rows before a place up to which two texts agree are the same.
proof fn lemma_rows_before(t: Seq<u8>, u: Seq<u8>, s: int, row: int)
    requires
        0 <= s <= t.len(),
        s <= u.len(),
        forall|i: int| 0 <= i < s ==> t[i] == u[i],
        s == 0 || t[s - 1] == 10,
        0 <= row < text::newlines(t, s),
    ensures
        text::line_start(u, row) == text::line_start(t, row),
        text::line_end(u, row) == text::line_end(t, row),
        text::line_end(t, row) < s,
        text::line_bytes(u, row) == text::line_bytes(t, row),
        row < text::line_count(t) - 1,
{
    text::lemma_newlines_monotonic(t, s, t.len() as int);
    lemma_row_starts(t, text::newlines(t, s), s);
    text::lemma_line_start(t, row);
    text::lemma_line_end(t, row);
    text::lemma_line_start_monotonic(t, row + 1, text::newlines(t, s));
    let p = text::line_start(t, row);
    let q = text::line_end(t, row);
    assert(q < s);
    lemma_newlines_same(t, u, p);
    lemma_row_reads(u, row, p, q);
    assert(u.subrange(p, q) =~= t.subrange(p, q));
}

/// Equal stretches hold as many line feeds.
proof fn lemma_newlines_shift(t: Seq<u8>, a: int, u: Seq<u8>, b: int, k: int)
    requires
        0 <= a,
        0 <= b,
        0 <= k,
        a + k <= t.len(),
        b + k <= u.len(),
        t.subrange(a, a + k) == u.subrange(b, b + k),
    ensures
        text::newlines(t, a + k) - text::newlines(t, a) == text::newlines(u, b + k)
            - text::newlines(u, b),
    decreases k,
{
    if k > 0 {
        let part = t.subrange(a, a + k);
        assert(part[k - 1] == t[a + k - 1]);
        assert(part[k - 1] == u[b + k - 1]);
        assert(t.subrange(a, a + (k - 1)) =~= part.take(k - 1));
        assert(u.subrange(b, b + (k - 1)) =~= part.take(k - 1));
        lemma_newlines_shift(t, a, u, b, k - 1);
    }
}

/// A part of two equal stretches is equal.
proof fn lemma_part(t: Seq<u8>, a: int, u: Seq<u8>, b: int, x: int, y: int)
    requires
        0 <= a <= t.len(),
        0 <= b <= u.len(),
        t.subrange(a, t.len() as int) == u.subrange(b, u.len() as int),
        a <= x <= y <= t.len(),
    ensures
        t.len() - a == u.len() - b,
        t.subrange(x, y) == u.subrange(x - a + b, y - a + b),
{
    let tail = t.subrange(a, t.len() as int);
    assert(tail.len() == u.subrange(b, u.len() as int).len());
    assert(t.subrange(x, y) =~= tail.subrange(x - a, y - a));
    assert(u.subrange(x - a + b, y - a + b) =~= tail.subrange(x - a, y - a));
}

/// Rows behind places from which two texts agree are the same.
proof fn lemma_rows_behind(t: Seq<u8>, a: int, u: Seq<u8>, b: int, row: int)
    requires
        0 <= a <= t.len(),
        0 <= b <= u.len(),
        t.subrange(a, t.len() as int) == u.subrange(b, u.len() as int),
        a == 0 || t[a - 1] == 10,
        b == 0 || u[b - 1] == 10,
        text::newlines(t, a) <= row < text::line_count(t),
    ensures
        ({
            let moved = row - text::newlines(t, a) + text::newlines(u, b);
            &&& 0 <= moved < text::line_count(u)
            &&& text::line_bytes(u, moved) == text::line_bytes(t, row)
            &&& text::line_start(u, moved) == text::line_start(t, row) - a + b
        }),
{
    text::lemma_newlines_bound(t, a);
    text::lemma_line_start(t, row);
    text::lemma_line_end(t, row);
    lemma_row_starts(t, text::newlines(t, a), a);
    text::lemma_line_start_monotonic(t, text::newlines(t, a), row);
    let p = text::line_start(t, row);
    let q = text::line_end(t, row);
    let moved = row - text::newlines(t, a) + text::newlines(u, b);
    let pp = p - a + b;
    let qq = q - a + b;
    lemma_part(t, a, u, b, a, p);
    lemma_newlines_shift(t, a, u, b, p - a);
    lemma_part(t, a, u, b, p, q);
    assert forall|i: int| pp <= i < qq implies u[i] != 10 by {
        assert(u.subrange(pp, qq)[i - pp] == t.subrange(p, q)[i - pp]);
        assert(t[i - pp + p] != 10);
    }
    if pp > b {
        lemma_part(t, a, u, b, p - 1, p);
        assert(u.subrange(pp - 1, pp)[0] == t.subrange(p - 1, p)[0]);
    }
    if qq < u.len() {
        lemma_part(t, a, u, b, q, q + 1);
        assert(u.subrange(qq, qq + 1)[0] == t.subrange(q, q + 1)[0]);
    }
    lemma_row_reads(u, moved, pp, qq);
}

/// The line count is one more than the line feeds of the parts.
proof fn lemma_line_count(t: Seq<u8>, a: int)
    requires
        0 <= a <= t.len(),
    ensures
        text::line_count(t) == text::newlines(t, a) + text::line_count(
            t.subrange(a, t.len() as int),
        ),
{
    let head = t.subrange(0, a);
    let tail = t.subrange(a, t.len() as int);
    assert(t =~= head + tail);
    lemma_newlines_concat(head, tail, tail.len() as int);
    lemma_newlines_same(t, head, a);
}

/// The content of a row has no line feed.
pub proof fn lemma_content(t: Seq<u8>, row: int)
    requires
        0 <= row,
    ensures
        forall|i: int|
            0 <= i < text::content_bytes(t, row).len() ==> #[trigger] text::content_bytes(t, row)[i]
                != 10,
        text::line_start(t, row) + text::content_bytes(t, row).len() <= text::line_end(t, row),
{
    text::lemma_line_end(t, row);
    let line = text::line_bytes(t, row);
    assert forall|i: int| 0 <= i < text::content_bytes(t, row).len() implies #[trigger] text::content_bytes(
        t,
        row,
    )[i] != 10 by {
        assert(line[i] == t[text::line_start(t, row) + i]);
    }
}

/// What lies before and behind one of the rows that were joined.
proof fn lemma_joined(t: Seq<u8>, rows: Seq<int>, sep: Seq<u8>, n: int, k: int) -> (parts: (
    Seq<u8>,
    Seq<u8>,
))
    requires
        0 <= k < n <= rows.len(),
        is_ending(sep),
        forall|i: int| 0 <= i < n ==> 0 <= #[trigger] rows[i],
    ensures
        lines::joined(t, rows, sep, n) == parts.0 + text::content_bytes(t, rows[k]) + parts.1,
        parts.0.len() == lines::joined_start(t, rows, sep, k),
        text::newlines(parts.0, parts.0.len() as int) == k,
        k > 0 ==> parts.0.len() > 0 && parts.0.last() == 10,
        k + 1 < n ==> parts.1.len() >= sep.len() && parts.1.subrange(0, sep.len() as int) == sep,
        k + 1 == n ==> parts.1.len() == 0,
    decreases n,
{
    let all = lines::joined(t, rows, sep, n);
    let content = text::content_bytes(t, rows[k]);
    if n == 1 {
        assert(all =~= Seq::<u8>::empty() + content + Seq::empty());
        return (Seq::empty(), Seq::empty());
    }
    let before = lines::joined(t, rows, sep, n - 1);
    let last = text::content_bytes(t, rows[n - 1]);
    if k < n - 1 {
        let (lead, tail) = lemma_joined(t, rows, sep, n - 1, k);
        let more = tail + sep + last;
        assert(all =~= lead + content + more);
        assert(more.subrange(0, sep.len() as int) =~= if tail.len() == 0 {
            sep
        } else {
            tail.subrange(0, sep.len() as int)
        });
        (lead, more)
    } else {
        let (lead, tail) = lemma_joined(t, rows, sep, n - 1, n - 2);
        let middle = text::content_bytes(t, rows[n - 2]);
        assert(before =~= lead + middle);
        lemma_content(t, rows[n - 2]);
        lemma_newlines_concat(lead, middle, middle.len() as int);
        text::lemma_newlines_gap(middle, 0, middle.len() as int);
        lemma_newlines_concat(before, sep, sep.len() as int);
        lemma_ending(sep);
        assert(all =~= (before + sep) + last + Seq::empty());
        (before + sep, Seq::empty())
    }
}

proof fn lemma_ending(ending: Seq<u8>)
    requires
        is_ending(ending),
    ensures
        text::newlines(ending, ending.len() as int) == 1,
        ending.last() == 10,
        forall|i: int| 0 <= i < ending.len() - 1 ==> ending[i] == 13,
{
    reveal_with_fuel(text::newlines, 3);
}

/// What follows a row: the end of the text, behind a carriage return or not, or
/// a line ending and the next row.
pub open spec fn follows_row(ending: Seq<u8>, rest: Seq<u8>) -> bool {
    is_ending(ending) || (rest.len() == 0 && (ending.len() == 0 || ending == seq![13u8]))
}

/// A text of a start, a row without its ending, the ending and a rest.
proof fn lemma_row_in(before: Seq<u8>, content: Seq<u8>, ending: Seq<u8>, rest: Seq<u8>)
    requires
        before.len() == 0 || before.last() == 10,
        follows_row(ending, rest),
        forall|i: int| 0 <= i < content.len() ==> content[i] != 10,
        content.len() > 0 ==> content.last() != 13,
    ensures
        ({
            let all = before + content + ending + rest;
            let row = text::newlines(before, before.len() as int);
            &&& text::content_bytes(all, row) == content
            &&& 0 <= row < text::line_count(all)
            &&& text::line_start(all, row) == before.len()
        }),
{
    let all = before + content + ending + rest;
    let row = text::newlines(before, before.len() as int);
    let p = before.len() as int;
    let stop = p + content.len();
    lemma_newlines_same(all, before, p);
    if p > 0 {
        assert(all[p - 1] == before.last());
    }
    let q = if is_ending(ending) {
        lemma_ending(ending);
        assert(all[stop + ending.len() - 1] == ending.last());
        stop + ending.len() - 1
    } else {
        all.len() as int
    };
    assert forall|i: int| p <= i < q implies all[i] != 10 by {
        if i < stop {
            assert(all[i] == content[i - p]);
        } else {
            assert(all[i] == ending[i - stop]);
        }
    }
    lemma_row_reads(all, row, p, q);
    let line = text::line_bytes(all, row);
    assert forall|i: int| 0 <= i < content.len() implies line[i] == content[i] by {
        assert(all[p + i] == content[i]);
    }
    if q > stop {
        assert(line.last() == all[q - 1]);
        assert(all[stop] == ending[0]);
    }
    lemma_content_of(all, row, content);
}

/// The rows that were joined are rows of the text in which they are put.
proof fn lemma_block_row(
    t: Seq<u8>,
    head: Seq<u8>,
    rows: Seq<int>,
    sep: Seq<u8>,
    ending: Seq<u8>,
    rest: Seq<u8>,
    k: int,
)
    requires
        0 <= k < rows.len(),
        head.len() == 0 || head.last() == 10,
        is_ending(sep),
        follows_row(ending, rest),
        forall|i: int| 0 <= i < rows.len() ==> 0 <= #[trigger] rows[i],
        text::content_bytes(t, rows[k]).len() > 0 ==> text::content_bytes(t, rows[k]).last() != 13,
    ensures
        ({
            let all = head + lines::joined(t, rows, sep, rows.len() as int) + ending + rest;
            let row = text::newlines(head, head.len() as int) + k;
            &&& text::content_bytes(all, row) == text::content_bytes(t, rows[k])
            &&& 0 <= row < text::line_count(all)
            &&& text::line_start(all, row) == head.len() + lines::joined_start(t, rows, sep, k)
        }),
{
    let n = rows.len() as int;
    let body = lines::joined(t, rows, sep, n);
    let all = head + body + ending + rest;
    let content = text::content_bytes(t, rows[k]);
    let (lead, tail) = lemma_joined(t, rows, sep, n, k);
    lemma_content(t, rows[k]);
    let before = head + lead;
    lemma_newlines_concat(head, lead, lead.len() as int);
    if k > 0 {
        assert(before.last() == lead.last());
    } else {
        assert(lead.len() == 0);
        assert(before =~= head);
    }
    if k + 1 < n {
        let more = tail.subrange(sep.len() as int, tail.len() as int);
        assert(tail =~= sep + more);
        lemma_regroup(head, lead, content, sep, more, ending, rest);
        lemma_row_in(before, content, sep, more + ending + rest);
    } else {
        assert(all =~= before + content + ending + rest);
        lemma_row_in(before, content, ending, rest);
    }
}

proof fn lemma_regroup(
    head: Seq<u8>,
    lead: Seq<u8>,
    content: Seq<u8>,
    sep: Seq<u8>,
    more: Seq<u8>,
    ending: Seq<u8>,
    rest: Seq<u8>,
)
    ensures
        head + (lead + content + (sep + more)) + ending + rest == (head + lead) + content + sep + (
        more + ending + rest),
{
    assert(head + (lead + content + (sep + more)) + ending + rest =~= (head + lead) + content + sep
        + (more + ending + rest));
}

/// A row reads its content and then, perhaps, a carriage return.
proof fn lemma_content_of(t: Seq<u8>, row: int, content: Seq<u8>)
    requires
        0 <= row,
        ({
            let line = text::line_bytes(t, row);
            &&& content.len() <= line.len() <= content.len() + 1
            &&& forall|i: int| 0 <= i < content.len() ==> line[i] == content[i]
            &&& line.len() == content.len() + 1 ==> line.last() == 13
        }),
        content.len() > 0 ==> content.last() != 13,
    ensures
        text::content_bytes(t, row) == content,
{
    let line = text::line_bytes(t, row);
    if line.len() == content.len() + 1 {
        assert(line.drop_last() =~= content);
    } else {
        assert(line =~= content);
    }
}

/// Where a block of rows ends, with the line ending of its last row.
spec fn block_stop(t: Seq<u8>, last: int) -> int {
    if last + 1 < text::line_count(t) {
        text::line_start(t, last + 1)
    } else {
        t.len() as int
    }
}

/// How a block of rows lies in its text.
proof fn lemma_block(t: Seq<u8>, first: int, last: int)
    requires
        0 <= first <= last < text::line_count(t),
    ensures
        ({
            let (start, end) = lines::block_range(t, (first, last));
            let stop = block_stop(t, last);
            &&& 0 <= start <= end <= stop <= t.len()
            &&& start == 0 || t[start - 1] == 10
            &&& text::newlines(t, start) == first
            &&& last + 1 < text::line_count(t) ==> is_ending(t.subrange(end, stop))
                && text::newlines(t, stop) == last + 1 && t[stop - 1] == 10
            &&& last + 1 >= text::line_count(t) ==> (t.subrange(end, stop).len() == 0
                || t.subrange(end, stop) == seq![13u8])
        }),
{
    text::lemma_line_start(t, first);
    text::lemma_line_start(t, last);
    text::lemma_line_start_monotonic(t, first, last);
    text::lemma_line_end(t, last);
    text::lemma_line_start(t, last + 1);
    let (start, end) = lines::block_range(t, (first, last));
    let stop = block_stop(t, last);
    let line = text::line_bytes(t, last);
    let part = t.subrange(end, stop);
    if line.len() > 0 && line.last() == 13 {
        assert(t[text::line_end(t, last) - 1] == 13);
        if last + 1 < text::line_count(t) {
            assert(part =~= seq![13u8, 10u8]);
        } else {
            assert(part =~= seq![13u8]);
        }
    } else if last + 1 < text::line_count(t) {
        assert(part =~= seq![10u8]);
    }
}

/// The line feeds of rows that were joined.
proof fn lemma_joined_newlines(t: Seq<u8>, rows: Seq<int>, sep: Seq<u8>)
    requires
        0 < rows.len(),
        is_ending(sep),
        forall|i: int| 0 <= i < rows.len() ==> 0 <= #[trigger] rows[i],
    ensures
        ({
            let body = lines::joined(t, rows, sep, rows.len() as int);
            text::newlines(body, body.len() as int) == rows.len() - 1
        }),
{
    let n = rows.len() as int;
    let body = lines::joined(t, rows, sep, n);
    let (lead, tail) = lemma_joined(t, rows, sep, n, n - 1);
    let content = text::content_bytes(t, rows[n - 1]);
    lemma_content(t, rows[n - 1]);
    text::lemma_newlines_gap(content, 0, content.len() as int);
    lemma_newlines_concat(lead, content, content.len() as int);
    assert(body =~= lead + content);
}

/// The text before a block, the block written anew, and what follows it.
#[verifier::opaque]
spec fn rewritten(
    t: Seq<u8>,
    cur: Seq<u8>,
    first: int,
    last: int,
    rows: Seq<int>,
    sep: Seq<u8>,
) -> Seq<u8> {
    let (start, end) = lines::block_range(t, (first, last));
    edit::replaced(cur, (start, end, lines::joined(t, rows, sep, rows.len() as int)))
}

/// `cur` reads like `t` up to the end of the block.
spec fn agree(t: Seq<u8>, cur: Seq<u8>, last: int) -> bool {
    let stop = block_stop(t, last);
    if last + 1 < text::line_count(t) {
        stop <= cur.len() && t.subrange(0, stop) == cur.subrange(0, stop)
    } else {
        cur == t
    }
}

/// The parts of the text in which a block was written anew.
proof fn lemma_rewritten_parts(
    t: Seq<u8>,
    cur: Seq<u8>,
    first: int,
    last: int,
    rows: Seq<int>,
    sep: Seq<u8>,
)
    requires
        0 <= first <= last < text::line_count(t),
        agree(t, cur, last),
    ensures
        ({
            let (start, end) = lines::block_range(t, (first, last));
            let stop = block_stop(t, last);
            rewritten(t, cur, first, last, rows, sep) == t.subrange(0, start) + lines::joined(
                t,
                rows,
                sep,
                rows.len() as int,
            ) + t.subrange(end, stop) + cur.subrange(stop, cur.len() as int)
        }),
{
    reveal(rewritten);
    lemma_block(t, first, last);
    let (start, end) = lines::block_range(t, (first, last));
    let stop = block_stop(t, last);
    let same = t.subrange(0, stop);
    assert(same =~= cur.subrange(0, stop));
    assert(cur.subrange(0, start) =~= same.subrange(0, start));
    assert(t.subrange(0, start) =~= same.subrange(0, start));
    assert(t.subrange(end, stop) =~= same.subrange(end, stop));
    assert(cur.subrange(end, cur.len() as int) =~= same.subrange(end, stop) + cur.subrange(
        stop,
        cur.len() as int,
    ));
    assert(rewritten(t, cur, first, last, rows, sep) =~= t.subrange(0, start) + lines::joined(
        t,
        rows,
        sep,
        rows.len() as int,
    ) + t.subrange(end, stop) + cur.subrange(stop, cur.len() as int));
}

/// The rows of the block after it was written anew.
proof fn lemma_rows_of_block(
    t: Seq<u8>,
    cur: Seq<u8>,
    first: int,
    last: int,
    rows: Seq<int>,
    sep: Seq<u8>,
    k: int,
)
    requires
        0 <= first <= last < text::line_count(t),
        agree(t, cur, last),
        is_ending(sep),
        0 <= k < rows.len(),
        forall|i: int| 0 <= i < rows.len() ==> 0 <= #[trigger] rows[i],
        text::content_bytes(t, rows[k]).len() > 0 ==> text::content_bytes(t, rows[k]).last() != 13,
    ensures
        text::content_bytes(rewritten(t, cur, first, last, rows, sep), first + k)
            == text::content_bytes(t, rows[k]),
{
    lemma_block(t, first, last);
    lemma_rewritten_parts(t, cur, first, last, rows, sep);
    let (start, end) = lines::block_range(t, (first, last));
    let stop = block_stop(t, last);
    let head = t.subrange(0, start);
    lemma_newlines_same(t, head, start);
    if last + 1 >= text::line_count(t) {
        assert(cur.subrange(stop, cur.len() as int).len() == 0);
    }
    lemma_block_row(
        t,
        head,
        rows,
        sep,
        t.subrange(end, stop),
        cur.subrange(stop, cur.len() as int),
        k,
    );
}

/// The rows before the block after it was written anew.
proof fn lemma_rows_before_block(
    t: Seq<u8>,
    cur: Seq<u8>,
    first: int,
    last: int,
    rows: Seq<int>,
    sep: Seq<u8>,
    row: int,
)
    requires
        0 <= row < first <= last < text::line_count(t),
        agree(t, cur, last),
    ensures
        text::content_bytes(rewritten(t, cur, first, last, rows, sep), row) == text::content_bytes(
            t,
            row,
        ),
{
    lemma_block(t, first, last);
    lemma_rewritten_parts(t, cur, first, last, rows, sep);
    let (start, end) = lines::block_range(t, (first, last));
    lemma_rows_before(t, rewritten(t, cur, first, last, rows, sep), start, row);
}

/// The line feeds up to what follows the block that was written anew.
proof fn lemma_rewritten_newlines(
    t: Seq<u8>,
    cur: Seq<u8>,
    first: int,
    last: int,
    rows: Seq<int>,
    sep: Seq<u8>,
)
    requires
        0 <= first <= last < text::line_count(t),
        agree(t, cur, last),
        is_ending(sep),
        rows.len() > 0,
        forall|i: int| 0 <= i < rows.len() ==> 0 <= #[trigger] rows[i],
    ensures
        ({
            let (start, end) = lines::block_range(t, (first, last));
            let body = lines::joined(t, rows, sep, rows.len() as int);
            let whole = rewritten(t, cur, first, last, rows, sep);
            let at = start + body.len() + (block_stop(t, last) - end);
            &&& 0 <= at <= whole.len()
            &&& whole.subrange(at, whole.len() as int) == cur.subrange(
                block_stop(t, last),
                cur.len() as int,
            )
            &&& text::newlines(whole, at) == first + rows.len() - 1 + if last + 1
                < text::line_count(t) {
                1int
            } else {
                0int
            }
            &&& last + 1 < text::line_count(t) ==> at > 0 && whole[at - 1] == 10
        }),
{
    lemma_block(t, first, last);
    lemma_rewritten_parts(t, cur, first, last, rows, sep);
    lemma_joined_newlines(t, rows, sep);
    let (start, end) = lines::block_range(t, (first, last));
    let stop = block_stop(t, last);
    let head = t.subrange(0, start);
    let body = lines::joined(t, rows, sep, rows.len() as int);
    let ending = t.subrange(end, stop);
    let rest = cur.subrange(stop, cur.len() as int);
    let whole = rewritten(t, cur, first, last, rows, sep);
    let at = start + body.len() + ending.len();
    lemma_newlines_same(t, head, start);
    lemma_newlines_concat(head, body, body.len() as int);
    lemma_newlines_concat(head + body, ending, ending.len() as int);
    lemma_newlines_same(whole, head + body + ending, at);
    if last + 1 < text::line_count(t) {
        lemma_ending(ending);
        assert(whole[at - 1] == ending.last());
    } else {
        reveal_with_fuel(text::newlines, 2);
    }
    assert(whole.subrange(at, whole.len() as int) =~= rest);
}

/// The rows behind the block after it was written anew, and their number.
proof fn lemma_rows_behind_block(
    t: Seq<u8>,
    cur: Seq<u8>,
    first: int,
    last: int,
    rows: Seq<int>,
    sep: Seq<u8>,
    row: int,
)
    requires
        0 <= first <= last < text::line_count(t),
        agree(t, cur, last),
        is_ending(sep),
        rows.len() > 0,
        forall|i: int| 0 <= i < rows.len() ==> 0 <= #[trigger] rows[i],
    ensures
        text::line_count(rewritten(t, cur, first, last, rows, sep)) == text::line_count(cur) - (last
            - first + 1) + rows.len(),
        last < row < text::line_count(cur) ==> text::content_bytes(
            rewritten(t, cur, first, last, rows, sep),
            row - (last - first + 1) + rows.len(),
        ) == text::content_bytes(cur, row),
{
    lemma_block(t, first, last);
    lemma_rewritten_newlines(t, cur, first, last, rows, sep);
    let (start, end) = lines::block_range(t, (first, last));
    let stop = block_stop(t, last);
    let body = lines::joined(t, rows, sep, rows.len() as int);
    let whole = rewritten(t, cur, first, last, rows, sep);
    let at = start + body.len() + (stop - end);
    lemma_line_count(whole, at);
    lemma_line_count(cur, stop);
    if last + 1 < text::line_count(t) {
        assert(t.subrange(0, stop)[stop - 1] == cur.subrange(0, stop)[stop - 1]);
        assert(cur[stop - 1] == 10);
        lemma_newlines_same(t, t.subrange(0, stop), stop);
        lemma_newlines_same(cur, cur.subrange(0, stop), stop);
        if last < row < text::line_count(cur) {
            lemma_rows_behind(cur, stop, whole, at, row);
        }
    } else {
        let rest = cur.subrange(stop, cur.len() as int);
        assert(rest.len() == 0);
        assert(text::line_count(rest) == 1);
        assert(text::newlines(cur, stop) == text::line_count(t) - 1);
    }
}

/// What a line reads where the place `k` is not to lie in its ending: with the
/// carriage return that stands before it, if there is one.
pub open spec fn line_holding(line: Seq<u8>, k: int) -> Seq<u8> {
    if k <= text::without_cr(line).len() {
        text::without_cr(line)
    } else {
        line
    }
}

/// What a row reads where the place `k` is not to lie in its ending.
pub open spec fn row_holding(t: Seq<u8>, row: int, k: int) -> Seq<u8> {
    line_holding(text::line_bytes(t, row), k)
}

/// Text without a line feed that is put into a row lengthens that row and moves
/// the rows behind it.
pub proof fn lemma_insert_in_row(t: Seq<u8>, row: int, k: int, new: Seq<u8>)
    requires
        0 <= row < text::line_count(t),
        0 <= k <= text::line_bytes(t, row).len(),
        forall|i: int| 0 <= i < new.len() ==> new[i] != 10,
        new.len() > 0 && new.last() != 13,
    ensures
        ({
            let at = text::line_start(t, row) + k;
            let content = row_holding(t, row, k);
            let after = edit::replaced(t, (at, at, new));
            &&& text::line_count(after) == text::line_count(t)
            &&& text::content_bytes(after, row) == content.take(k) + new + content.skip(k)
            &&& forall|r: int|
                #![trigger text::content_bytes(after, r)]
                0 <= r < text::line_count(t) && r != row ==> text::content_bytes(after, r)
                    == text::content_bytes(t, r)
            &&& forall|r: int|
                #![trigger text::line_bytes(after, r)]
                0 <= r < text::line_count(t) && r != row ==> text::line_bytes(after, r)
                    == text::line_bytes(t, r)
            &&& forall|r: int|
                #![trigger text::line_start(after, r)]
                0 <= r < text::line_count(t) ==> text::line_start(after, r) == text::line_start(
                    t,
                    r,
                ) + if r > row {
                    new.len() as int
                } else {
                    0
                }
        }),
{
    let at = text::line_start(t, row) + k;
    let after = edit::replaced(t, (at, at, new));
    lemma_lengthened_row(t, row, k, new);
    assert forall|r: int| #![trigger text::content_bytes(after, r)] 0 <= r < text::line_count(t) && r
        != row implies text::content_bytes(after, r) == text::content_bytes(t, r) by {
        lemma_other_rows(t, row, k, new, r);
    }
    assert forall|r: int| #![trigger text::line_bytes(after, r)] 0 <= r < text::line_count(t) && r
        != row implies text::line_bytes(after, r) == text::line_bytes(t, r) by {
        lemma_other_rows(t, row, k, new, r);
    }
    assert forall|r: int|
        #![trigger text::line_start(after, r)]
        0 <= r < text::line_count(t) implies text::line_start(after, r) == text::line_start(t, r)
        + if r > row {
        new.len() as int
    } else {
        0
    } by {
        if r != row {
            lemma_other_rows(t, row, k, new, r);
        }
    }
}

/// How text that is put into a row lies in the text.
proof fn lemma_put(t: Seq<u8>, row: int, k: int, new: Seq<u8>)
    requires
        0 <= row < text::line_count(t),
        0 <= k <= text::line_bytes(t, row).len(),
        forall|i: int| 0 <= i < new.len() ==> new[i] != 10,
    ensures
        ({
            let p = text::line_start(t, row);
            let q = text::line_end(t, row);
            let after = edit::replaced(t, (p + k, p + k, new));
            let n = new.len() as int;
            &&& 0 <= p <= p + k <= q <= t.len()
            &&& after.len() == t.len() + n
            &&& text::newlines(t, p) == row
            &&& text::newlines(after, p) == row
            &&& p == 0 || (t[p - 1] == 10 && after[p - 1] == 10)
            &&& forall|i: int| p <= i < q + n ==> after[i] != 10
            &&& q < t.len() ==> t[q] == 10 && after[q + n] == 10
            &&& after.subrange(p, q + n) == t.subrange(p, q).take(k) + new + t.subrange(p, q).skip(k)
            &&& after.subrange(0, p) == t.subrange(0, p)
            &&& after.subrange(q + n, after.len() as int) == t.subrange(q, t.len() as int)
        }),
{
    text::lemma_line_start(t, row);
    text::lemma_line_end(t, row);
    lemma_content(t, row);
    let p = text::line_start(t, row);
    let q = text::line_end(t, row);
    let at = p + k;
    let n = new.len() as int;
    let after = edit::replaced(t, (at, at, new));
    lemma_newlines_same(t, after, p);
    assert forall|i: int| p <= i < q + n implies after[i] != 10 by {
        if i < at {
            assert(after[i] == t[i]);
        } else if i < at + n {
            assert(after[i] == new[i - at]);
        } else {
            assert(after[i] == t[i - n]);
        }
    }
    assert(after.subrange(p, q + n) =~= t.subrange(p, q).take(k) + new + t.subrange(p, q).skip(k));
    assert(after.subrange(0, p) =~= t.subrange(0, p));
    assert(after.subrange(q + n, after.len() as int) =~= t.subrange(q, t.len() as int));
}

/// The row into which text was put, and the number of rows.
proof fn lemma_lengthened_row(t: Seq<u8>, row: int, k: int, new: Seq<u8>)
    requires
        0 <= row < text::line_count(t),
        0 <= k <= text::line_bytes(t, row).len(),
        forall|i: int| 0 <= i < new.len() ==> new[i] != 10,
        new.len() > 0 && new.last() != 13,
    ensures
        ({
            let at = text::line_start(t, row) + k;
            let content = row_holding(t, row, k);
            let after = edit::replaced(t, (at, at, new));
            &&& text::line_count(after) == text::line_count(t)
            &&& text::line_start(after, row) == text::line_start(t, row)
            &&& text::content_bytes(after, row) == content.take(k) + new + content.skip(k)
        }),
{
    lemma_put(t, row, k, new);
    let p = text::line_start(t, row);
    let q = text::line_end(t, row);
    let n = new.len() as int;
    let after = edit::replaced(t, (p + k, p + k, new));
    lemma_row_reads(after, row, p, q + n);
    lemma_lengthened(text::line_bytes(t, row), k, new);
    text::lemma_newlines_gap(after, p, q + n);
    text::lemma_line_end(t, row);
    text::lemma_newlines_gap(t, p, q);
    lemma_newlines_shift(t, q, after, q + n, t.len() - q);
}

/// The rows into which no text was put.
proof fn lemma_other_rows(t: Seq<u8>, row: int, k: int, new: Seq<u8>, r: int)
    requires
        0 <= row < text::line_count(t),
        0 <= k <= text::line_bytes(t, row).len(),
        forall|i: int| 0 <= i < new.len() ==> new[i] != 10,
        0 <= r < text::line_count(t),
        r != row,
    ensures
        ({
            let at = text::line_start(t, row) + k;
            let after = edit::replaced(t, (at, at, new));
            &&& text::content_bytes(after, r) == text::content_bytes(t, r)
            &&& text::line_bytes(after, r) == text::line_bytes(t, r)
            &&& text::line_start(after, r) == text::line_start(t, r) + if r > row {
                new.len() as int
            } else {
                0
            }
        }),
{
    lemma_put(t, row, k, new);
    let p = text::line_start(t, row);
    let q = text::line_end(t, row);
    let n = new.len() as int;
    let after = edit::replaced(t, (p + k, p + k, new));
    if r < row {
        assert forall|i: int| 0 <= i < p implies t[i] == after[i] by {
            assert(t.subrange(0, p)[i] == after.subrange(0, p)[i]);
        }
        lemma_rows_before(t, after, p, r);
    } else {
        text::lemma_line_end(t, row);
        text::lemma_line_start(t, row + 1);
        let a = q + 1;
        let b = a + n;
        lemma_part(t, q, after, q + n, a, t.len() as int);
        text::lemma_newlines_gap(after, p, q + n);
        lemma_rows_behind(t, a, after, b, r);
    }
}

/// A line with text put into it.
proof fn lemma_lengthened(line: Seq<u8>, k: int, new: Seq<u8>)
    requires
        0 <= k <= line.len(),
        new.len() > 0 && new.last() != 13,
    ensures
        text::without_cr(line.take(k) + new + line.skip(k)) == line_holding(line, k).take(k) + new
            + line_holding(line, k).skip(k),
{
    let whole = line.take(k) + new + line.skip(k);
    let content = line_holding(line, k);
    if k < line.len() && line.last() == 13 {
        assert(whole.last() == 13);
        assert(whole.drop_last() =~= content.take(k) + new + content.skip(k));
    } else {
        if k < line.len() {
            assert(whole.last() == line.last());
        } else {
            assert(whole.last() == new.last());
        }
        assert(whole =~= content.take(k) + new + content.skip(k));
    }
}

/// A block of rows in whose place one row is put.
spec fn with_one_row(t: Seq<u8>, first: int, last: int, content: Seq<u8>) -> Seq<u8> {
    let (start, end) = lines::block_range(t, (first, last));
    edit::replaced(t, (start, end, content))
}

/// The parts of a text in which one row stands for a block.
proof fn lemma_one_row_parts(t: Seq<u8>, first: int, last: int, content: Seq<u8>)
    requires
        0 <= first <= last < text::line_count(t),
    ensures
        ({
            let (start, end) = lines::block_range(t, (first, last));
            let stop = block_stop(t, last);
            with_one_row(t, first, last, content) == t.subrange(0, start) + content + t.subrange(
                end,
                stop,
            ) + t.subrange(stop, t.len() as int)
        }),
{
    lemma_block(t, first, last);
    let (start, end) = lines::block_range(t, (first, last));
    let stop = block_stop(t, last);
    assert(with_one_row(t, first, last, content) =~= t.subrange(0, start) + content + t.subrange(
        end,
        stop,
    ) + t.subrange(stop, t.len() as int));
}

/// The line feeds up to what follows the row that stands for a block.
proof fn lemma_one_row_newlines(t: Seq<u8>, first: int, last: int, content: Seq<u8>) -> (at: int)
    requires
        0 <= first <= last < text::line_count(t),
        forall|i: int| 0 <= i < content.len() ==> content[i] != 10,
    ensures
        ({
            let whole = with_one_row(t, first, last, content);
            &&& 0 <= at <= whole.len()
            &&& whole.subrange(at, whole.len() as int) == t.subrange(
                block_stop(t, last),
                t.len() as int,
            )
            &&& last + 1 < text::line_count(t) ==> at > 0 && whole[at - 1] == 10 && text::newlines(
                whole,
                at,
            ) == first + 1
            &&& last + 1 >= text::line_count(t) ==> text::newlines(whole, at) == first
        }),
{
    lemma_block(t, first, last);
    lemma_one_row_parts(t, first, last, content);
    let (start, end) = lines::block_range(t, (first, last));
    let stop = block_stop(t, last);
    let head = t.subrange(0, start);
    let ending = t.subrange(end, stop);
    let whole = with_one_row(t, first, last, content);
    let at = start + content.len() + ending.len();
    lemma_newlines_same(t, head, start);
    lemma_newlines_concat(head, content, content.len() as int);
    text::lemma_newlines_gap(content, 0, content.len() as int);
    lemma_newlines_concat(head + content, ending, ending.len() as int);
    lemma_newlines_same(whole, head + content + ending, at);
    if last + 1 < text::line_count(t) {
        lemma_ending(ending);
        assert(whole[at - 1] == ending.last());
    } else {
        reveal_with_fuel(text::newlines, 2);
    }
    assert(whole.subrange(at, whole.len() as int) =~= t.subrange(stop, t.len() as int));
    at
}

/// The row that stands for a block of rows, and how many rows there are then.
proof fn lemma_one_row_itself(t: Seq<u8>, first: int, last: int, content: Seq<u8>)
    requires
        0 <= first <= last < text::line_count(t),
        forall|i: int| 0 <= i < content.len() ==> content[i] != 10,
        content.len() > 0 ==> content.last() != 13,
    ensures
        ({
            let after = with_one_row(t, first, last, content);
            &&& text::line_count(after) == text::line_count(t) - (last - first)
            &&& text::content_bytes(after, first) == content
        }),
{
    let (start, end) = lines::block_range(t, (first, last));
    let stop = block_stop(t, last);
    let after = with_one_row(t, first, last, content);
    lemma_block(t, first, last);
    lemma_one_row_parts(t, first, last, content);
    let head = t.subrange(0, start);
    lemma_newlines_same(t, head, start);
    lemma_row_in(head, content, t.subrange(end, stop), t.subrange(stop, t.len() as int));
    let at = lemma_one_row_newlines(t, first, last, content);
    lemma_line_count(after, at);
    lemma_line_count(t, stop);
    let rest = t.subrange(stop, t.len() as int);
    assert(rest.len() == 0 ==> text::line_count(rest) == 1);
}

/// The rows on either side of the one that stands for a block of rows.
proof fn lemma_beside_one_row(t: Seq<u8>, first: int, last: int, content: Seq<u8>, row: int)
    requires
        0 <= first <= last < text::line_count(t),
        forall|i: int| 0 <= i < content.len() ==> content[i] != 10,
        content.len() > 0 ==> content.last() != 13,
        0 <= row < text::line_count(t) - (last - first),
        row != first,
    ensures
        text::content_bytes(with_one_row(t, first, last, content), row) == text::content_bytes(
            t,
            if row < first {
                row
            } else {
                row + (last - first)
            },
        ),
{
    let start = lines::block_range(t, (first, last)).0;
    let stop = block_stop(t, last);
    let after = with_one_row(t, first, last, content);
    lemma_block(t, first, last);
    if row < first {
        assert forall|i: int| 0 <= i < start implies t[i] == after[i] by {}
        lemma_rows_before(t, after, start, row);
    } else {
        let at = lemma_one_row_newlines(t, first, last, content);
        lemma_rows_behind(t, stop, after, at, row + (last - first));
    }
}

/// The row that stands for a block of rows, and the rows on either side.
pub proof fn lemma_one_row(t: Seq<u8>, first: int, last: int, content: Seq<u8>)
    requires
        0 <= first <= last < text::line_count(t),
        forall|i: int| 0 <= i < content.len() ==> content[i] != 10,
        content.len() > 0 ==> content.last() != 13,
    ensures
        ({
            let (start, end) = lines::block_range(t, (first, last));
            let after = edit::replaced(t, (start, end, content));
            let gone = last - first;
            &&& text::line_count(after) == text::line_count(t) - gone
            &&& text::content_bytes(after, first) == content
            &&& forall|row: int|
                #![trigger text::content_bytes(after, row)]
                0 <= row < text::line_count(after) && row != first ==> text::content_bytes(
                    after,
                    row,
                ) == text::content_bytes(
                    t,
                    if row < first {
                        row
                    } else {
                        row + gone
                    },
                )
        }),
{
    let after = with_one_row(t, first, last, content);
    let gone = last - first;
    lemma_one_row_itself(t, first, last, content);
    assert forall|row: int| #![trigger text::content_bytes(after, row)] 0 <= row < text::line_count(
        after,
    ) && row != first implies text::content_bytes(after, row) == text::content_bytes(
        t,
        if row < first {
            row
        } else {
            row + gone
        },
    ) by {
        lemma_beside_one_row(t, first, last, content, row);
    }
}

/// Blocks of rows of the text, one behind the other.
pub open spec fn are_blocks(t: Seq<u8>, blocks: Seq<(int, int)>) -> bool {
    &&& forall|i: int|
        #![trigger blocks[i]]
        0 <= i < blocks.len() ==> 0 <= blocks[i].0 <= blocks[i].1 < text::line_count(t)
    &&& forall|i: int, j: int|
        #![trigger blocks[i], blocks[j]]
        0 <= i < j < blocks.len() ==> blocks[i].1 < blocks[j].0
}

/// For each block as many rows of the text as it has.
pub open spec fn are_orders(
    t: Seq<u8>,
    blocks: Seq<(int, int)>,
    orders: Seq<Seq<int>>,
) -> bool {
    &&& orders.len() == blocks.len()
    &&& forall|i: int|
        #![trigger orders[i]]
        0 <= i < blocks.len() ==> orders[i].len() == blocks[i].1 - blocks[i].0 + 1
    &&& forall|i: int, k: int|
        #![trigger orders[i][k]]
        0 <= i < blocks.len() && 0 <= k < orders[i].len() ==> 0 <= orders[i][k] < text::line_count(
            t,
        )
}

/// No row reads a carriage return before its line ending.
pub open spec fn ends_plainly(t: Seq<u8>) -> bool {
    forall|row: int|
        #![trigger text::content_bytes(t, row)]
        0 <= row < text::line_count(t) && text::content_bytes(t, row).len() > 0
            ==> text::content_bytes(t, row).last() != 13
}

/// The edits that write each block anew, in the given order of rows.
pub open spec fn order_edits(
    t: Seq<u8>,
    blocks: Seq<(int, int)>,
    orders: Seq<Seq<int>>,
) -> Seq<(int, int, Seq<u8>)> {
    Seq::new(
        blocks.len(),
        |i: int|
            (
                lines::block_range(t, blocks[i]).0,
                lines::block_range(t, blocks[i]).1,
                lines::joined(t, orders[i], lines::line_ending(t), orders[i].len() as int),
            ),
    )
}

/// The row that comes to stand in the place of `row`, by the blocks from `i` on.
pub open spec fn source_row(
    blocks: Seq<(int, int)>,
    orders: Seq<Seq<int>>,
    row: int,
    i: int,
) -> int
    decreases blocks.len() - i,
{
    if i >= blocks.len() {
        row
    } else if blocks[i].0 <= row <= blocks[i].1 {
        orders[i][row - blocks[i].0]
    } else {
        source_row(blocks, orders, row, i + 1)
    }
}

/// A row outside the blocks stays in its place.
proof fn lemma_source_outside(
    blocks: Seq<(int, int)>,
    orders: Seq<Seq<int>>,
    row: int,
    i: int,
)
    requires
        0 <= i,
        forall|k: int|
            #![trigger blocks[k]]
            i <= k < blocks.len() ==> !(blocks[k].0 <= row <= blocks[k].1),
    ensures
        source_row(blocks, orders, row, i) == row,
    decreases blocks.len() - i,
{
    if i < blocks.len() {
        lemma_source_outside(blocks, orders, row, i + 1);
    }
}

/// A row in a block gives its place to that which the block's order says.
proof fn lemma_source_inside(
    t: Seq<u8>,
    blocks: Seq<(int, int)>,
    orders: Seq<Seq<int>>,
    row: int,
    i: int,
    m: int,
)
    requires
        are_blocks(t, blocks),
        0 <= i <= m < blocks.len(),
        blocks[m].0 <= row <= blocks[m].1,
    ensures
        source_row(blocks, orders, row, i) == orders[m][row - blocks[m].0],
    decreases m - i,
{
    if i < m {
        assert(blocks[i].1 < blocks[m].0);
        lemma_source_inside(t, blocks, orders, row, i + 1, m);
    }
}

/// The blocks from the `m`-th on have been written anew.
spec fn is_partly_ordered(
    t: Seq<u8>,
    cur: Seq<u8>,
    blocks: Seq<(int, int)>,
    orders: Seq<Seq<int>>,
    m: int,
) -> bool {
    &&& text::line_count(cur) == text::line_count(t)
    &&& if m < blocks.len() {
        let start = text::line_start(t, blocks[m].0);
        start <= cur.len() && t.subrange(0, start) == cur.subrange(0, start)
    } else {
        cur == t
    }
    &&& forall|row: int|
        #![trigger text::content_bytes(cur, row)]
        0 <= row < text::line_count(t) ==> text::content_bytes(cur, row) == text::content_bytes(
            t,
            if m < blocks.len() && row >= blocks[m].0 {
                source_row(blocks, orders, row, 0)
            } else {
                row
            },
        )
}

proof fn lemma_line_ending(t: Seq<u8>)
    ensures
        is_ending(lines::line_ending(t)),
{
}

/// What was written behind a block leaves the block as it was.
proof fn lemma_agree(
    t: Seq<u8>,
    cur: Seq<u8>,
    blocks: Seq<(int, int)>,
    orders: Seq<Seq<int>>,
    m: int,
)
    requires
        are_blocks(t, blocks),
        0 < m <= blocks.len(),
        is_partly_ordered(t, cur, blocks, orders, m),
    ensures
        agree(t, cur, blocks[m - 1].1),
{
    let last = blocks[m - 1].1;
    let stop = block_stop(t, last);
    if m < blocks.len() {
        assert(blocks[m - 1].1 < blocks[m].0);
        let start = text::line_start(t, blocks[m].0);
        text::lemma_line_start(t, last + 1);
        text::lemma_line_start(t, blocks[m].0);
        text::lemma_line_start_monotonic(t, last + 1, blocks[m].0);
        assert(t.subrange(0, stop) =~= t.subrange(0, start).take(stop));
        assert(cur.subrange(0, stop) =~= cur.subrange(0, start).take(stop));
    } else if last + 1 < text::line_count(t) {
        text::lemma_line_start(t, last + 1);
    }
}

/// One more block is written anew.
proof fn lemma_order_step(
    t: Seq<u8>,
    cur: Seq<u8>,
    blocks: Seq<(int, int)>,
    orders: Seq<Seq<int>>,
    m: int,
)
    requires
        are_blocks(t, blocks),
        are_orders(t, blocks, orders),
        ends_plainly(t),
        0 < m <= blocks.len(),
        is_partly_ordered(t, cur, blocks, orders, m),
    ensures
        is_partly_ordered(
            t,
            edit::replaced(cur, order_edits(t, blocks, orders)[m - 1]),
            blocks,
            orders,
            m - 1,
        ),
{
    let (first, last) = blocks[m - 1];
    let rows = orders[m - 1];
    let sep = lines::line_ending(t);
    let n = text::line_count(t);
    lemma_line_ending(t);
    lemma_agree(t, cur, blocks, orders, m);
    let next = rewritten(t, cur, first, last, rows, sep);
    assert(next == edit::replaced(cur, order_edits(t, blocks, orders)[m - 1])) by {
        reveal(rewritten);
    }
    assert forall|i: int| 0 <= i < rows.len() implies 0 <= #[trigger] rows[i] by {
        assert(0 <= orders[m - 1][i]);
    }
    lemma_rows_behind_block(t, cur, first, last, rows, sep, last + 1);
    assert forall|row: int| #![trigger text::content_bytes(next, row)] 0 <= row < n implies text::content_bytes(
        next,
        row,
    ) == text::content_bytes(
        t,
        if row >= first {
            source_row(blocks, orders, row, 0)
        } else {
            row
        },
    ) by {
        if row < first {
            lemma_rows_before_block(t, cur, first, last, rows, sep, row);
        } else if row <= last {
            lemma_source_inside(t, blocks, orders, row, 0, m - 1);
            assert(0 <= orders[m - 1][row - first] < n);
            lemma_rows_of_block(t, cur, first, last, rows, sep, row - first);
        } else {
            lemma_rows_behind_block(t, cur, first, last, rows, sep, row);
            assert(text::content_bytes(next, row) == text::content_bytes(cur, row));
            if !(m < blocks.len() && row >= blocks[m].0) {
                assert forall|k: int| #![trigger blocks[k]] 0 <= k < blocks.len() implies !(
                blocks[k].0 <= row <= blocks[k].1) by {
                    if k < m - 1 {
                        assert(blocks[k].1 < blocks[m - 1].0);
                    } else if k > m {
                        assert(blocks[m].1 < blocks[k].0);
                    }
                }
                lemma_source_outside(blocks, orders, row, 0);
            }
        }
    }
    lemma_block(t, first, last);
    lemma_rewritten_parts(t, cur, first, last, rows, sep);
    assert(next.subrange(0, text::line_start(t, first)) =~= t.subrange(
        0,
        text::line_start(t, first),
    ));
}

/// The blocks before the `m`-th are written anew, from the last to the first.
proof fn lemma_ordered(
    t: Seq<u8>,
    cur: Seq<u8>,
    blocks: Seq<(int, int)>,
    orders: Seq<Seq<int>>,
    m: int,
)
    requires
        are_blocks(t, blocks),
        are_orders(t, blocks, orders),
        ends_plainly(t),
        0 <= m <= blocks.len(),
        is_partly_ordered(t, cur, blocks, orders, m),
    ensures
        is_partly_ordered(
            t,
            edit::applied(cur, order_edits(t, blocks, orders).take(m)),
            blocks,
            orders,
            0,
        ),
    decreases m,
{
    let edits = order_edits(t, blocks, orders);
    if m > 0 {
        lemma_order_step(t, cur, blocks, orders, m);
        lemma_ordered(t, edit::replaced(cur, edits[m - 1]), blocks, orders, m - 1);
        assert(edits.take(m).drop_last() =~= edits.take(m - 1));
        assert(edits.take(m).last() == edits[m - 1]);
    } else {
        assert(edits.take(0).len() == 0);
    }
}

/// Writing blocks of rows anew changes which row stands where and nothing else:
/// there are as many rows as before, each place in a block reads the row that
/// the order of the block puts there, and every other row stays.
pub proof fn law_ordered_rows(t: Seq<u8>, blocks: Seq<(int, int)>, orders: Seq<Seq<int>>)
    requires
        are_blocks(t, blocks),
        are_orders(t, blocks, orders),
        ends_plainly(t),
    ensures
        ({
            let after = edit::applied(t, order_edits(t, blocks, orders));
            &&& text::line_count(after) == text::line_count(t)
            &&& forall|row: int|
                #![trigger text::content_bytes(after, row)]
                0 <= row < text::line_count(t) ==> text::content_bytes(after, row)
                    == text::content_bytes(t, source_row(blocks, orders, row, 0))
        }),
{
    let edits = order_edits(t, blocks, orders);
    let m = blocks.len() as int;
    lemma_ordered(t, t, blocks, orders, m);
    assert(edits.take(m) =~= edits);
    let after = edit::applied(t, edits);
    if m > 0 {
        assert forall|row: int|
            #![trigger text::content_bytes(after, row)]
            0 <= row < text::line_count(t) implies text::content_bytes(after, row)
            == text::content_bytes(t, source_row(blocks, orders, row, 0)) by {
            if row < blocks[0].0 {
                assert forall|k: int| #![trigger blocks[k]] 0 <= k < blocks.len() implies !(
                blocks[k].0 <= row <= blocks[k].1) by {
                    if k > 0 {
                        assert(blocks[0].1 < blocks[k].0);
                    }
                }
                lemma_source_outside(blocks, orders, row, 0);
            }
        }
    }
}

/// The orders that turn the rows of each block around.
pub open spec fn reverse_orders(blocks: Seq<(int, int)>) -> Seq<Seq<int>> {
    Seq::new(blocks.len(), |i: int| lines::reversed_rows(blocks[i].0, blocks[i].1))
}

/// Reversing blocks of rows turns each of them around: the places of a block
/// read its rows from the last to the first, and every other row stays.
pub proof fn law_reversed_rows(t: Seq<u8>, blocks: Seq<(int, int)>)
    requires
        are_blocks(t, blocks),
        ends_plainly(t),
    ensures
        ({
            let after = edit::applied(t, lines::reverse_edits(t, blocks));
            &&& text::line_count(after) == text::line_count(t)
            &&& forall|i: int, row: int|
                #![trigger blocks[i], text::content_bytes(after, row)]
                0 <= i < blocks.len() && blocks[i].0 <= row <= blocks[i].1 ==> text::content_bytes(
                    after,
                    row,
                ) == text::content_bytes(t, blocks[i].0 + blocks[i].1 - row)
            &&& forall|row: int|
                #![trigger text::content_bytes(after, row)]
                0 <= row < text::line_count(t) && (forall|i: int|
                    #![trigger blocks[i]]
                    0 <= i < blocks.len() ==> !(blocks[i].0 <= row <= blocks[i].1))
                    ==> text::content_bytes(after, row) == text::content_bytes(t, row)
        }),
{
    let orders = reverse_orders(blocks);
    assert forall|i: int, k: int|
        #![trigger orders[i][k]]
        0 <= i < blocks.len() && 0 <= k < orders[i].len() implies 0 <= orders[i][k]
        < text::line_count(t) by {
        assert(blocks[i].0 <= blocks[i].1);
    }
    assert forall|i: int| #![trigger orders[i]] 0 <= i < blocks.len() implies orders[i].len()
        == blocks[i].1 - blocks[i].0 + 1 by {
        assert(blocks[i].0 <= blocks[i].1);
    }
    law_ordered_rows(t, blocks, orders);
    assert(order_edits(t, blocks, orders) =~= lines::reverse_edits(t, blocks));
    let after = edit::applied(t, lines::reverse_edits(t, blocks));
    assert forall|i: int, row: int|
        #![trigger blocks[i], text::content_bytes(after, row)]
        0 <= i < blocks.len() && blocks[i].0 <= row <= blocks[i].1 implies text::content_bytes(
        after,
        row,
    ) == text::content_bytes(t, blocks[i].0 + blocks[i].1 - row) by {
        lemma_source_inside(t, blocks, orders, row, 0, i);
    }
    assert forall|row: int| #![trigger text::content_bytes(after, row)] 0 <= row < text::line_count(
        t,
    ) && (forall|i: int|
        #![trigger blocks[i]]
        0 <= i < blocks.len() ==> !(blocks[i].0 <= row
            <= blocks[i].1)) implies text::content_bytes(after, row) == text::content_bytes(
        t,
        row,
    ) by {
        lemma_source_outside(blocks, orders, row, 0);
    }
}

/// Reversing the same blocks of rows again brings every row back to its place.
pub proof fn law_reversing_twice(t: Seq<u8>, blocks: Seq<(int, int)>, row: int)
    requires
        are_blocks(t, blocks),
        ends_plainly(t),
        0 <= row < text::line_count(t),
    ensures
        ({
            let once = edit::applied(t, lines::reverse_edits(t, blocks));
            let twice = edit::applied(once, lines::reverse_edits(once, blocks));
            &&& text::line_count(twice) == text::line_count(t)
            &&& text::content_bytes(twice, row) == text::content_bytes(t, row)
        }),
{
    let once = edit::applied(t, lines::reverse_edits(t, blocks));
    law_reversed_rows(t, blocks);
    assert forall|r: int| #![trigger text::content_bytes(once, r)] 0 <= r < text::line_count(once)
        && text::content_bytes(once, r).len() > 0 implies text::content_bytes(once, r).last()
        != 13 by {
        if exists|i: int|
            #![trigger blocks[i]]
            0 <= i < blocks.len() && blocks[i].0 <= r <= blocks[i].1 {
            let i = choose|i: int|
                #![trigger blocks[i]]
                0 <= i < blocks.len() && blocks[i].0 <= r <= blocks[i].1;
            assert(text::content_bytes(once, r) == text::content_bytes(
                t,
                blocks[i].0 + blocks[i].1 - r,
            ));
        } else {
            assert(text::content_bytes(once, r) == text::content_bytes(t, r));
        }
    }
    law_reversed_rows(once, blocks);
    let twice = edit::applied(once, lines::reverse_edits(once, blocks));
    if exists|i: int|
        #![trigger blocks[i]]
        0 <= i < blocks.len() && blocks[i].0 <= row <= blocks[i].1 {
        let i = choose|i: int|
            #![trigger blocks[i]]
            0 <= i < blocks.len() && blocks[i].0 <= row <= blocks[i].1;
        let other = blocks[i].0 + blocks[i].1 - row;
        assert(text::content_bytes(twice, row) == text::content_bytes(once, other));
        assert(text::content_bytes(once, other) == text::content_bytes(t, row));
    } else {
        assert(text::content_bytes(twice, row) == text::content_bytes(once, row));
        assert(text::content_bytes(once, row) == text::content_bytes(t, row));
    }
}

/// Sorting blocks of rows by given orders puts the rows of each block in that
/// order, or from the last to the first of it, and leaves every other row.
pub proof fn law_sorted_rows(
    t: Seq<u8>,
    blocks: Seq<(int, int)>,
    orders: Seq<Seq<int>>,
    descending: bool,
)
    requires
        are_blocks(t, blocks),
        orders.len() == blocks.len(),
        forall|i: int|
            #![trigger blocks[i]]
            0 <= i < blocks.len() ==> lines::is_row_order(blocks[i], orders[i]),
        ends_plainly(t),
    ensures
        ({
            let after = edit::applied(t, lines::sort_edits_of(t, blocks, orders, descending));
            &&& text::line_count(after) == text::line_count(t)
            &&& forall|i: int, row: int|
                #![trigger blocks[i], text::content_bytes(after, row)]
                0 <= i < blocks.len() && blocks[i].0 <= row <= blocks[i].1 ==> text::content_bytes(
                    after,
                    row,
                ) == text::content_bytes(
                    t,
                    lines::ordered_rows(blocks[i], orders[i], descending)[row - blocks[i].0],
                )
            &&& forall|row: int|
                #![trigger text::content_bytes(after, row)]
                0 <= row < text::line_count(t) && (forall|i: int|
                    #![trigger blocks[i]]
                    0 <= i < blocks.len() ==> !(blocks[i].0 <= row <= blocks[i].1))
                    ==> text::content_bytes(after, row) == text::content_bytes(t, row)
        }),
{
    let rows = Seq::new(
        blocks.len(),
        |i: int| lines::ordered_rows(blocks[i], orders[i], descending),
    );
    assert forall|i: int, k: int|
        #![trigger rows[i][k]]
        0 <= i < blocks.len() && 0 <= k < rows[i].len() implies 0 <= rows[i][k] < text::line_count(
        t,
    ) by {
        assert(lines::is_row_order(blocks[i], orders[i]));
        let at = if descending {
            orders[i].len() - 1 - k
        } else {
            k
        };
        assert(0 <= orders[i][at] < orders[i].len());
    }
    assert forall|i: int| #![trigger rows[i]] 0 <= i < blocks.len() implies rows[i].len()
        == blocks[i].1 - blocks[i].0 + 1 by {
        assert(lines::is_row_order(blocks[i], orders[i]));
    }
    law_ordered_rows(t, blocks, rows);
    assert(order_edits(t, blocks, rows) =~= lines::sort_edits_of(t, blocks, orders, descending));
    let after = edit::applied(t, lines::sort_edits_of(t, blocks, orders, descending));
    assert forall|i: int, row: int|
        #![trigger blocks[i], text::content_bytes(after, row)]
        0 <= i < blocks.len() && blocks[i].0 <= row <= blocks[i].1 implies text::content_bytes(
        after,
        row,
    ) == text::content_bytes(
        t,
        lines::ordered_rows(blocks[i], orders[i], descending)[row - blocks[i].0],
    ) by {
        lemma_source_inside(t, blocks, rows, row, 0, i);
    }
    assert forall|row: int| #![trigger text::content_bytes(after, row)] 0 <= row < text::line_count(
        t,
    ) && (forall|i: int|
        #![trigger blocks[i]]
        0 <= i < blocks.len() ==> !(blocks[i].0 <= row
            <= blocks[i].1)) implies text::content_bytes(after, row) == text::content_bytes(
        t,
        row,
    ) by {
        lemma_source_outside(blocks, rows, row, 0);
    }
}

/// By how many rows the blocks from the `m`-th on shrink when each is written
/// anew with a list of rows.
pub open spec fn shrunk_by(blocks: Seq<(int, int)>, lists: Seq<Seq<int>>, m: int) -> int
    decreases blocks.len() - m,
{
    if m < 0 || m >= blocks.len() {
        0
    } else {
        blocks[m].1 - blocks[m].0 + 1 - lists[m].len() + shrunk_by(blocks, lists, m + 1)
    }
}

/// The row that comes to stand at `row` once the blocks from the `m`-th on are
/// written anew, each with a list of rows.
pub open spec fn listed_row(
    blocks: Seq<(int, int)>,
    lists: Seq<Seq<int>>,
    row: int,
    m: int,
) -> int
    decreases blocks.len() - m,
{
    if m < 0 || m >= blocks.len() || row < blocks[m].0 {
        row
    } else if row < blocks[m].0 + lists[m].len() {
        lists[m][row - blocks[m].0]
    } else {
        listed_row(
            blocks,
            lists,
            row + (blocks[m].1 - blocks[m].0 + 1) - lists[m].len(),
            m + 1,
        )
    }
}

/// For each block some rows of the text.
pub open spec fn are_lists(t: Seq<u8>, blocks: Seq<(int, int)>, lists: Seq<Seq<int>>) -> bool {
    &&& lists.len() == blocks.len()
    &&& forall|i: int| #![trigger lists[i]] 0 <= i < lists.len() ==> lists[i].len() > 0
    &&& forall|i: int, k: int|
        #![trigger lists[i][k]]
        0 <= i < lists.len() && 0 <= k < lists[i].len() ==> 0 <= lists[i][k] < text::line_count(t)
}

/// The blocks from the `m`-th on have been written anew with their lists.
spec fn is_partly_listed(
    t: Seq<u8>,
    cur: Seq<u8>,
    blocks: Seq<(int, int)>,
    lists: Seq<Seq<int>>,
    m: int,
) -> bool {
    &&& text::line_count(cur) == text::line_count(t) - shrunk_by(blocks, lists, m)
    &&& if m < blocks.len() {
        let start = text::line_start(t, blocks[m].0);
        start <= cur.len() && t.subrange(0, start) == cur.subrange(0, start)
    } else {
        cur == t
    }
    &&& forall|row: int|
        #![trigger text::content_bytes(cur, row)]
        0 <= row < text::line_count(cur) ==> text::content_bytes(cur, row) == text::content_bytes(
            t,
            listed_row(blocks, lists, row, m),
        )
}

/// What was written behind a block leaves the block as it was.
proof fn lemma_agree_listed(
    t: Seq<u8>,
    cur: Seq<u8>,
    blocks: Seq<(int, int)>,
    lists: Seq<Seq<int>>,
    m: int,
)
    requires
        are_blocks(t, blocks),
        0 < m <= blocks.len(),
        is_partly_listed(t, cur, blocks, lists, m),
    ensures
        agree(t, cur, blocks[m - 1].1),
{
    let last = blocks[m - 1].1;
    let stop = block_stop(t, last);
    if m < blocks.len() {
        assert(blocks[m - 1].1 < blocks[m].0);
        let start = text::line_start(t, blocks[m].0);
        text::lemma_line_start(t, last + 1);
        text::lemma_line_start(t, blocks[m].0);
        text::lemma_line_start_monotonic(t, last + 1, blocks[m].0);
        assert(t.subrange(0, stop) =~= t.subrange(0, start).take(stop));
        assert(cur.subrange(0, stop) =~= cur.subrange(0, start).take(stop));
    } else if last + 1 < text::line_count(t) {
        text::lemma_line_start(t, last + 1);
    }
}

/// One more block is written anew with its list.
proof fn lemma_list_step(
    t: Seq<u8>,
    cur: Seq<u8>,
    blocks: Seq<(int, int)>,
    lists: Seq<Seq<int>>,
    m: int,
)
    requires
        are_blocks(t, blocks),
        are_lists(t, blocks, lists),
        ends_plainly(t),
        0 < m <= blocks.len(),
        is_partly_listed(t, cur, blocks, lists, m),
    ensures
        is_partly_listed(
            t,
            edit::replaced(cur, order_edits(t, blocks, lists)[m - 1]),
            blocks,
            lists,
            m - 1,
        ),
{
    let (first, last) = blocks[m - 1];
    let rows = lists[m - 1];
    let sep = lines::line_ending(t);
    let size = last - first + 1;
    lemma_line_ending(t);
    lemma_agree_listed(t, cur, blocks, lists, m);
    let next = rewritten(t, cur, first, last, rows, sep);
    assert(next == edit::replaced(cur, order_edits(t, blocks, lists)[m - 1])) by {
        reveal(rewritten);
    }
    assert forall|i: int| 0 <= i < rows.len() implies 0 <= #[trigger] rows[i] by {
        assert(0 <= lists[m - 1][i]);
    }
    lemma_rows_behind_block(t, cur, first, last, rows, sep, last + 1);
    assert(shrunk_by(blocks, lists, m - 1) == size - rows.len() + shrunk_by(blocks, lists, m));
    assert forall|row: int|
        #![trigger text::content_bytes(next, row)]
        0 <= row < text::line_count(next) implies text::content_bytes(next, row)
        == text::content_bytes(t, listed_row(blocks, lists, row, m - 1)) by {
        if row < first {
            lemma_rows_before_block(t, cur, first, last, rows, sep, row);
        } else if row < first + rows.len() {
            assert(0 <= lists[m - 1][row - first] < text::line_count(t));
            lemma_rows_of_block(t, cur, first, last, rows, sep, row - first);
        } else {
            let from = row + size - rows.len();
            lemma_rows_behind_block(t, cur, first, last, rows, sep, from);
            assert(text::content_bytes(next, row) == text::content_bytes(cur, from));
        }
    }
    lemma_block(t, first, last);
    lemma_rewritten_parts(t, cur, first, last, rows, sep);
    assert(next.subrange(0, text::line_start(t, first)) =~= t.subrange(
        0,
        text::line_start(t, first),
    ));
}

/// The blocks before the `m`-th are written anew, from the last to the first.
proof fn lemma_listed(
    t: Seq<u8>,
    cur: Seq<u8>,
    blocks: Seq<(int, int)>,
    lists: Seq<Seq<int>>,
    m: int,
)
    requires
        are_blocks(t, blocks),
        are_lists(t, blocks, lists),
        ends_plainly(t),
        0 <= m <= blocks.len(),
        is_partly_listed(t, cur, blocks, lists, m),
    ensures
        is_partly_listed(
            t,
            edit::applied(cur, order_edits(t, blocks, lists).take(m)),
            blocks,
            lists,
            0,
        ),
    decreases m,
{
    let edits = order_edits(t, blocks, lists);
    if m > 0 {
        lemma_list_step(t, cur, blocks, lists, m);
        lemma_listed(t, edit::replaced(cur, edits[m - 1]), blocks, lists, m - 1);
        assert(edits.take(m).drop_last() =~= edits.take(m - 1));
        assert(edits.take(m).last() == edits[m - 1]);
    } else {
        assert(edits.take(0).len() == 0);
    }
}

/// The rows that deduplicating retains of each block.
pub open spec fn retained_lists(t: Seq<u8>, blocks: Seq<(int, int)>) -> Seq<Seq<int>> {
    Seq::new(
        blocks.len(),
        |i: int| deduplicate::retained_rows(t, blocks[i].0, blocks[i].1),
    )
}

/// Deduplicating blocks leaves the retained rows of each in its place, in their
/// order, and every other row.
pub proof fn law_deduplicated_rows(t: Seq<u8>, blocks: Seq<(int, int)>)
    requires
        are_blocks(t, blocks),
        ends_plainly(t),
    ensures
        ({
            let lists = retained_lists(t, blocks);
            let after = edit::applied(t, deduplicate::deduplicate_edits(t, blocks));
            &&& text::line_count(after) == text::line_count(t) - shrunk_by(blocks, lists, 0)
            &&& forall|row: int|
                #![trigger text::content_bytes(after, row)]
                0 <= row < text::line_count(after) ==> text::content_bytes(after, row)
                    == text::content_bytes(t, listed_row(blocks, lists, row, 0))
        }),
{
    let lists = retained_lists(t, blocks);
    assert forall|i: int| #![trigger lists[i]] 0 <= i < blocks.len() implies lists[i].len() > 0 by {
        assert(blocks[i].0 <= blocks[i].1);
        deduplicate::law_retained_rows(t, blocks[i].0, blocks[i].1);
        assert(deduplicate::is_represented(t, lists[i], blocks[i].0));
    }
    assert forall|i: int, k: int|
        #![trigger lists[i][k]]
        0 <= i < blocks.len() && 0 <= k < lists[i].len() implies 0 <= lists[i][k]
        < text::line_count(t) by {
        assert(0 <= blocks[i].0 <= blocks[i].1 < text::line_count(t));
        deduplicate::law_retained_rows(t, blocks[i].0, blocks[i].1);
        assert(blocks[i].0 <= lists[i][k] <= blocks[i].1);
    }
    let m = blocks.len() as int;
    lemma_listed(t, t, blocks, lists, m);
    let edits = order_edits(t, blocks, lists);
    assert(edits.take(m) =~= edits);
    assert(edits =~= deduplicate::deduplicate_edits(t, blocks));
}

/// Deleting a block of rows at the end of the text cuts it behind the row before.
proof fn lemma_cut_rows(t: Seq<u8>, first: int)
    requires
        0 < first < text::line_count(t),
        ends_plainly(t),
    ensures
        ({
            let cut = lines::preceding_ending(t, text::line_start(t, first));
            let after = t.subrange(0, cut);
            &&& 0 <= cut <= t.len()
            &&& text::line_count(after) == first
            &&& forall|row: int|
                #![trigger text::content_bytes(after, row)]
                0 <= row < first ==> text::content_bytes(after, row) == text::content_bytes(t, row)
        }),
{
    let last = first - 1;
    lemma_block(t, last, last);
    let (start, end) = lines::block_range(t, (last, last));
    let stop = block_stop(t, last);
    let content = text::content_bytes(t, last);
    let cut = lines::preceding_ending(t, stop);
    let head = t.subrange(0, start);
    let ending = t.subrange(end, stop);
    lemma_content(t, last);
    text::lemma_line_end(t, last);
    assert(t[stop - 1] == 10);
    if ending == seq![13u8, 10u8] {
        assert(ending[0] == t[end] && ending[1] == t[end + 1]);
    } else {
        assert(ending == seq![10u8]);
        assert(ending.len() == 1);
        if stop >= 2 && t[stop - 2] == 13 {
            if content.len() > 0 {
                assert(content.last() == t[end - 1]);
                assert(content.last() != 13);
            } else if start > 0 {
                assert(t[start - 1] == 10);
            }
        }
    }
    assert(cut == end);
    let after = t.subrange(0, cut);
    assert(content =~= t.subrange(start, end)) by {
        let line = text::line_bytes(t, last);
        assert forall|i: int| 0 <= i < content.len() implies content[i] == t[start + i] by {
            assert(content[i] == line[i]);
        }
    }
    assert(after =~= head + content + Seq::empty() + Seq::empty());
    lemma_newlines_same(t, head, start);
    lemma_row_in(head, content, Seq::empty(), Seq::empty());
    lemma_newlines_concat(head, content, content.len() as int);
    text::lemma_newlines_gap(content, 0, content.len() as int);
    assert(head + content =~= after);
    assert forall|row: int| #![trigger text::content_bytes(after, row)] 0 <= row < first implies text::content_bytes(
        after,
        row,
    ) == text::content_bytes(t, row) by {
        if row < last {
            lemma_rows_before(t, after, start, row);
        }
    }
}

/// Deleting a block of rows, but not all of them, leaves the other rows in
/// their order.
pub proof fn law_deleted_rows(t: Seq<u8>, block: (int, int))
    requires
        0 <= block.0 <= block.1 < text::line_count(t),
        block.0 > 0 || block.1 + 1 < text::line_count(t),
        ends_plainly(t),
    ensures
        ({
            let range = lines::delete_range(t, block);
            let after = edit::replaced(t, (range.0, range.1, Seq::empty()));
            let gone = block.1 - block.0 + 1;
            &&& text::line_count(after) == text::line_count(t) - gone
            &&& forall|row: int|
                #![trigger text::content_bytes(after, row)]
                0 <= row < text::line_count(after) ==> text::content_bytes(after, row)
                    == text::content_bytes(
                    t,
                    if row < block.0 {
                        row
                    } else {
                        row + gone
                    },
                )
        }),
{
    let (first, last) = block;
    let range = lines::delete_range(t, block);
    let after = edit::replaced(t, (range.0, range.1, Seq::empty()));
    let gone = last - first + 1;
    lemma_block(t, first, last);
    if last + 1 < text::line_count(t) {
        let start = text::line_start(t, first);
        let stop = block_stop(t, last);
        let head = t.subrange(0, start);
        assert(after.subrange(start, after.len() as int) =~= t.subrange(stop, t.len() as int));
        lemma_newlines_same(t, after, start);
        lemma_line_count(after, start);
        lemma_line_count(t, stop);
        assert forall|row: int|
            #![trigger text::content_bytes(after, row)]
            0 <= row < text::line_count(after) implies text::content_bytes(after, row)
            == text::content_bytes(
            t,
            if row < first {
                row
            } else {
                row + gone
            },
        ) by {
            if row < first {
                lemma_rows_before(t, after, start, row);
            } else {
                lemma_rows_behind(t, stop, after, start, row + gone);
            }
        }
    } else {
        lemma_cut_rows(t, first);
        assert(after =~= t.subrange(0, range.0));
    }
}

/// The rows that a move concerns: those of the block and the one it passes.
pub open spec fn moved_span(block: (int, int), direction: LineDirection) -> (int, int) {
    if direction is Up {
        (block.0 - 1, block.1)
    } else {
        (block.0, block.1 + 1)
    }
}

/// The text with a block of rows moved past the next row.
pub open spec fn moved(t: Seq<u8>, block: (int, int), direction: LineDirection) -> Seq<u8> {
    moved_in(t, t, block, direction)
}

/// A text that reads like `t` up to a block of rows, with the block moved past
/// the next row.
pub open spec fn moved_in(
    t: Seq<u8>,
    cur: Seq<u8>,
    block: (int, int),
    direction: LineDirection,
) -> Seq<u8> {
    let rewrite = lines::move_rewrite(t, block, direction);
    edit::replaced(cur, (rewrite.start, rewrite.end, rewrite.text))
}

/// The line ending that follows the rows of a move.
spec fn moved_ending(t: Seq<u8>, block: (int, int), direction: LineDirection) -> Seq<u8> {
    if moved_span(block, direction).1 + 1 < text::line_count(t) {
        lines::line_ending(t)
    } else {
        Seq::empty()
    }
}

/// The parts of a text in which a block moved.
proof fn lemma_moved_parts(
    t: Seq<u8>,
    cur: Seq<u8>,
    block: (int, int),
    direction: LineDirection,
)
    requires
        0 <= block.0 <= block.1 < text::line_count(t),
        lines::is_movable(t, block, direction),
        agree(t, cur, moved_span(block, direction).1),
    ensures
        ({
            let (top, bottom) = moved_span(block, direction);
            let rows = lines::move_order(block, direction);
            let stop = block_stop(t, bottom);
            let start = text::line_start(t, top);
            moved_in(t, cur, block, direction) == t.subrange(0, start) + lines::joined(
                t,
                rows,
                lines::line_ending(t),
                rows.len() as int,
            ) + moved_ending(t, block, direction) + cur.subrange(stop, cur.len() as int)
        }),
{
    let (top, bottom) = moved_span(block, direction);
    let rows = lines::move_order(block, direction);
    let sep = lines::line_ending(t);
    let stop = block_stop(t, bottom);
    let start = text::line_start(t, top);
    let body = lines::joined(t, rows, sep, rows.len() as int);
    let ending = moved_ending(t, block, direction);
    let rewrite = lines::move_rewrite(t, block, direction);
    lemma_block(t, top, bottom);
    assert(rewrite.start == start && rewrite.end == stop);
    assert(rewrite.text =~= body + ending);
    let same = t.subrange(0, stop);
    assert(same =~= cur.subrange(0, stop));
    assert(cur.subrange(0, start) =~= same.subrange(0, start));
    assert(t.subrange(0, start) =~= same.subrange(0, start));
    assert(moved_in(t, cur, block, direction) =~= t.subrange(0, start) + body + ending
        + cur.subrange(stop, cur.len() as int));
}

/// The line feeds up to what follows a move.
proof fn lemma_moved_newlines(
    t: Seq<u8>,
    cur: Seq<u8>,
    block: (int, int),
    direction: LineDirection,
) -> (at: int)
    requires
        0 <= block.0 <= block.1 < text::line_count(t),
        lines::is_movable(t, block, direction),
        agree(t, cur, moved_span(block, direction).1),
    ensures
        ({
            let (top, bottom) = moved_span(block, direction);
            let whole = moved_in(t, cur, block, direction);
            &&& 0 <= at <= whole.len()
            &&& whole.subrange(at, whole.len() as int) == cur.subrange(
                block_stop(t, bottom),
                cur.len() as int,
            )
            &&& bottom + 1 < text::line_count(t) ==> text::newlines(whole, at) == bottom + 1
                && whole[at - 1] == 10 && at > 0
            &&& bottom + 1 >= text::line_count(t) ==> text::newlines(whole, at) == bottom && at
                == whole.len()
        }),
{
    let (top, bottom) = moved_span(block, direction);
    let rows = lines::move_order(block, direction);
    let sep = lines::line_ending(t);
    let start = text::line_start(t, top);
    let stop = block_stop(t, bottom);
    let whole = moved_in(t, cur, block, direction);
    let head = t.subrange(0, start);
    let body = lines::joined(t, rows, sep, rows.len() as int);
    let ending = moved_ending(t, block, direction);
    let rest = cur.subrange(stop, cur.len() as int);
    lemma_line_ending(t);
    lemma_block(t, top, bottom);
    lemma_moved_parts(t, cur, block, direction);
    lemma_joined_newlines(t, rows, sep);
    let at = start + body.len() + ending.len();
    lemma_newlines_same(t, head, start);
    lemma_newlines_concat(head, body, body.len() as int);
    lemma_newlines_concat(head + body, ending, ending.len() as int);
    lemma_newlines_same(whole, head + body + ending, at);
    if bottom + 1 < text::line_count(t) {
        lemma_ending(sep);
        assert(whole[at - 1] == sep.last());
    }
    assert(whole.subrange(at, whole.len() as int) =~= rest);
    at
}

/// The rows of a move.
proof fn lemma_moved_row(
    t: Seq<u8>,
    cur: Seq<u8>,
    block: (int, int),
    direction: LineDirection,
    row: int,
)
    requires
        0 <= block.0 <= block.1 < text::line_count(t),
        lines::is_movable(t, block, direction),
        agree(t, cur, moved_span(block, direction).1),
        ends_plainly(t),
        moved_span(block, direction).0 <= row <= moved_span(block, direction).1,
    ensures
        text::content_bytes(moved_in(t, cur, block, direction), row) == text::content_bytes(
            t,
            lines::move_order(block, direction)[row - moved_span(block, direction).0],
        ),
{
    let (top, bottom) = moved_span(block, direction);
    let rows = lines::move_order(block, direction);
    let sep = lines::line_ending(t);
    let start = text::line_start(t, top);
    let stop = block_stop(t, bottom);
    let head = t.subrange(0, start);
    lemma_line_ending(t);
    lemma_block(t, top, bottom);
    lemma_moved_parts(t, cur, block, direction);
    lemma_newlines_same(t, head, start);
    if bottom + 1 >= text::line_count(t) {
        assert(cur.subrange(stop, cur.len() as int).len() == 0);
    }
    lemma_block_row(
        t,
        head,
        rows,
        sep,
        moved_ending(t, block, direction),
        cur.subrange(stop, cur.len() as int),
        row - top,
    );
}

/// The rows before a move.
proof fn lemma_row_before_move(
    t: Seq<u8>,
    cur: Seq<u8>,
    block: (int, int),
    direction: LineDirection,
    row: int,
)
    requires
        0 <= block.0 <= block.1 < text::line_count(t),
        lines::is_movable(t, block, direction),
        agree(t, cur, moved_span(block, direction).1),
        0 <= row < moved_span(block, direction).0,
    ensures
        text::content_bytes(moved_in(t, cur, block, direction), row) == text::content_bytes(t, row),
{
    let (top, bottom) = moved_span(block, direction);
    let after = moved_in(t, cur, block, direction);
    let start = text::line_start(t, top);
    lemma_block(t, top, bottom);
    lemma_moved_parts(t, cur, block, direction);
    assert forall|i: int| 0 <= i < start implies t[i] == after[i] by {
        assert(t.subrange(0, start)[i] == t[i]);
    }
    lemma_rows_before(t, after, start, row);
}

/// The rows behind a move, and the number of rows.
proof fn lemma_row_behind_move(
    t: Seq<u8>,
    cur: Seq<u8>,
    block: (int, int),
    direction: LineDirection,
    row: int,
)
    requires
        0 <= block.0 <= block.1 < text::line_count(t),
        lines::is_movable(t, block, direction),
        agree(t, cur, moved_span(block, direction).1),
    ensures
        text::line_count(moved_in(t, cur, block, direction)) == text::line_count(cur),
        moved_span(block, direction).1 < row < text::line_count(cur) ==> text::content_bytes(
            moved_in(t, cur, block, direction),
            row,
        ) == text::content_bytes(cur, row),
{
    let (top, bottom) = moved_span(block, direction);
    let after = moved_in(t, cur, block, direction);
    let stop = block_stop(t, bottom);
    lemma_block(t, top, bottom);
    let at = lemma_moved_newlines(t, cur, block, direction);
    lemma_line_count(after, at);
    lemma_line_count(cur, stop);
    let rest = cur.subrange(stop, cur.len() as int);
    if bottom + 1 < text::line_count(t) {
        assert(t.subrange(0, stop)[stop - 1] == cur.subrange(0, stop)[stop - 1]);
        assert(cur[stop - 1] == 10);
        lemma_newlines_same(t, t.subrange(0, stop), stop);
        lemma_newlines_same(cur, cur.subrange(0, stop), stop);
        if bottom < row < text::line_count(cur) {
            lemma_rows_behind(cur, stop, after, at, row);
        }
    } else {
        assert(rest.len() == 0);
        assert(text::line_count(rest) == 1);
        assert(text::newlines(cur, stop) == text::line_count(t) - 1);
    }
}

/// A text agrees with itself.
proof fn lemma_agree_with_itself(t: Seq<u8>, last: int)
    ensures
        agree(t, t, last),
{
    if last + 1 < text::line_count(t) {
        text::lemma_line_start(t, last + 1);
    }
}

/// Moving a block of rows past the next row changes the places of those rows
/// and of no other: the row that was passed stands on the other side.
pub proof fn law_moved_rows(t: Seq<u8>, block: (int, int), direction: LineDirection)
    requires
        0 <= block.0 <= block.1 < text::line_count(t),
        lines::is_movable(t, block, direction),
        ends_plainly(t),
    ensures
        ({
            let (top, bottom) = moved_span(block, direction);
            let rows = lines::move_order(block, direction);
            let after = moved(t, block, direction);
            &&& text::line_count(after) == text::line_count(t)
            &&& rows.len() == bottom - top + 1
            &&& forall|row: int|
                #![trigger text::content_bytes(after, row)]
                0 <= row < text::line_count(t) ==> text::content_bytes(after, row)
                    == text::content_bytes(
                    t,
                    if top <= row <= bottom {
                        rows[row - top]
                    } else {
                        row
                    },
                )
        }),
{
    let (top, bottom) = moved_span(block, direction);
    let rows = lines::move_order(block, direction);
    let after = moved(t, block, direction);
    lemma_agree_with_itself(t, bottom);
    lemma_row_behind_move(t, t, block, direction, bottom + 1);
    assert forall|row: int| #![trigger text::content_bytes(after, row)] 0 <= row < text::line_count(
        t,
    ) implies text::content_bytes(after, row) == text::content_bytes(
        t,
        if top <= row <= bottom {
            rows[row - top]
        } else {
            row
        },
    ) by {
        if row < top {
            lemma_row_before_move(t, t, block, direction, row);
        } else if row <= bottom {
            lemma_moved_row(t, t, block, direction, row);
        } else {
            lemma_row_behind_move(t, t, block, direction, row);
        }
    }
}

/// Moving a block of rows and then moving it back brings every row back to its
/// place.
pub proof fn law_moving_back(t: Seq<u8>, block: (int, int), direction: LineDirection, row: int)
    requires
        0 <= block.0 <= block.1 < text::line_count(t),
        lines::is_movable(t, block, direction),
        ends_plainly(t),
        0 <= row < text::line_count(t),
    ensures
        ({
            let once = moved(t, block, direction);
            let (there, back) = if direction is Up {
                ((block.0 - 1, block.1 - 1), LineDirection::Down)
            } else {
                ((block.0 + 1, block.1 + 1), LineDirection::Up)
            };
            let twice = moved(once, there, back);
            &&& lines::is_movable(once, there, back)
            &&& text::line_count(twice) == text::line_count(t)
            &&& text::content_bytes(twice, row) == text::content_bytes(t, row)
        }),
{
    let once = moved(t, block, direction);
    let (there, back) = if direction is Up {
        ((block.0 - 1, block.1 - 1), LineDirection::Down)
    } else {
        ((block.0 + 1, block.1 + 1), LineDirection::Up)
    };
    law_moved_rows(t, block, direction);
    assert forall|r: int| #![trigger text::content_bytes(once, r)] 0 <= r < text::line_count(once)
        && text::content_bytes(once, r).len() > 0 implies text::content_bytes(once, r).last()
        != 13 by {
        let (top, bottom) = moved_span(block, direction);
        let from = if top <= r <= bottom {
            lines::move_order(block, direction)[r - top]
        } else {
            r
        };
        assert(0 <= from < text::line_count(t));
        assert(text::content_bytes(once, r) == text::content_bytes(t, from));
    }
    law_moved_rows(once, there, back);
    let twice = moved(once, there, back);
    let (top, bottom) = moved_span(block, direction);
    assert(moved_span(there, back) == (top, bottom));
    if top <= row <= bottom {
        let mid = lines::move_order(there, back)[row - top];
        assert(text::content_bytes(twice, row) == text::content_bytes(once, mid));
        assert(top <= mid <= bottom);
        assert(lines::move_order(block, direction)[mid - top] == row);
        assert(text::content_bytes(once, mid) == text::content_bytes(t, row));
    } else {
        assert(text::content_bytes(twice, row) == text::content_bytes(once, row));
        assert(text::content_bytes(once, row) == text::content_bytes(t, row));
    }
}

/// The row that comes to stand at `row` once those of the blocks from the `i`-th
/// on that can move have moved.
pub open spec fn passed_row(
    t: Seq<u8>,
    blocks: Seq<(int, int)>,
    direction: LineDirection,
    row: int,
    i: int,
) -> int
    decreases blocks.len() - i,
{
    if i < 0 || i >= blocks.len() {
        row
    } else {
        let (top, bottom) = moved_span(blocks[i], direction);
        if lines::is_movable(t, blocks[i], direction) && top <= row <= bottom {
            lines::move_order(blocks[i], direction)[row - top]
        } else {
            passed_row(t, blocks, direction, row, i + 1)
        }
    }
}

/// The first row that a move of the `m`-th block may concern.
spec fn first_passed(blocks: Seq<(int, int)>, direction: LineDirection, m: int) -> int {
    if direction is Up && blocks[m].0 > 0 {
        blocks[m].0 - 1
    } else {
        blocks[m].0
    }
}

/// Rows before those that a move concerns stay.
proof fn lemma_not_passed(
    t: Seq<u8>,
    blocks: Seq<(int, int)>,
    direction: LineDirection,
    row: int,
    m: int,
)
    requires
        lines::blocks_apart(blocks, 1, text::line_count(t)),
        0 <= m <= blocks.len(),
        m < blocks.len() ==> row < first_passed(blocks, direction, m),
    ensures
        passed_row(t, blocks, direction, row, m) == row,
    decreases blocks.len() - m,
{
    if m < blocks.len() {
        if m + 1 < blocks.len() {
            assert(blocks[m].1 + 1 < blocks[m + 1].0);
            assert(blocks[m].0 <= blocks[m].1);
        }
        lemma_not_passed(t, blocks, direction, row, m + 1);
    }
}

/// The blocks from the `m`-th on have moved.
spec fn is_partly_moved(
    t: Seq<u8>,
    cur: Seq<u8>,
    blocks: Seq<(int, int)>,
    direction: LineDirection,
    m: int,
) -> bool {
    &&& text::line_count(cur) == text::line_count(t)
    &&& if m < blocks.len() {
        let start = text::line_start(t, first_passed(blocks, direction, m));
        start <= cur.len() && t.subrange(0, start) == cur.subrange(0, start)
    } else {
        cur == t
    }
    &&& forall|row: int|
        #![trigger text::content_bytes(cur, row)]
        0 <= row < text::line_count(t) ==> text::content_bytes(cur, row) == text::content_bytes(
            t,
            passed_row(t, blocks, direction, row, m),
        )
}

/// What moved behind a block leaves the text up to a row as it was.
proof fn lemma_agree_moved(
    t: Seq<u8>,
    cur: Seq<u8>,
    blocks: Seq<(int, int)>,
    direction: LineDirection,
    m: int,
    row: int,
)
    requires
        lines::blocks_apart(blocks, 1, text::line_count(t)),
        0 < m <= blocks.len(),
        is_partly_moved(t, cur, blocks, direction, m),
        0 <= row < text::line_count(t),
        m < blocks.len() ==> row < first_passed(blocks, direction, m),
    ensures
        agree(t, cur, row),
        text::line_start(t, row) <= cur.len(),
        t.subrange(0, text::line_start(t, row)) == cur.subrange(0, text::line_start(t, row)),
{
    text::lemma_line_start(t, row);
    text::lemma_line_start(t, row + 1);
    if m < blocks.len() {
        let first = first_passed(blocks, direction, m);
        let start = text::line_start(t, first);
        let stop = block_stop(t, row);
        let at = text::line_start(t, row);
        text::lemma_line_start(t, first);
        text::lemma_line_start_monotonic(t, row, row + 1);
        text::lemma_line_start_monotonic(t, row + 1, first);
        assert(0 <= blocks[m].0 <= blocks[m].1 < text::line_count(t));
        assert(t.subrange(0, stop) =~= t.subrange(0, start).take(stop));
        assert(cur.subrange(0, stop) =~= cur.subrange(0, start).take(stop));
        assert(t.subrange(0, at) =~= t.subrange(0, start).take(at));
        assert(cur.subrange(0, at) =~= cur.subrange(0, start).take(at));
    } else {
        lemma_agree_with_itself(t, row);
    }
}

/// One more block moves.
proof fn lemma_move_step(
    t: Seq<u8>,
    cur: Seq<u8>,
    blocks: Seq<(int, int)>,
    direction: LineDirection,
    m: int,
)
    requires
        lines::blocks_apart(blocks, 1, text::line_count(t)),
        ends_plainly(t),
        0 < m <= blocks.len(),
        is_partly_moved(t, cur, blocks, direction, m),
        lines::is_movable(t, blocks[m - 1], direction),
    ensures
        is_partly_moved(t, moved_in(t, cur, blocks[m - 1], direction), blocks, direction, m - 1),
{
    let block = blocks[m - 1];
    let (top, bottom) = moved_span(block, direction);
    let next = moved_in(t, cur, block, direction);
    assert(0 <= block.0 <= block.1 < text::line_count(t));
    if m < blocks.len() {
        assert(blocks[m - 1].1 + 1 < blocks[m].0);
        assert(0 <= blocks[m].0 <= blocks[m].1 < text::line_count(t));
    }
    lemma_agree_moved(t, cur, blocks, direction, m, bottom);
    lemma_row_behind_move(t, cur, block, direction, bottom + 1);
    assert forall|row: int|
        #![trigger text::content_bytes(next, row)]
        0 <= row < text::line_count(t) implies text::content_bytes(next, row)
        == text::content_bytes(t, passed_row(t, blocks, direction, row, m - 1)) by {
        if row < top {
            lemma_row_before_move(t, cur, block, direction, row);
            lemma_not_passed(t, blocks, direction, row, m - 1);
        } else if row <= bottom {
            lemma_moved_row(t, cur, block, direction, row);
        } else {
            lemma_row_behind_move(t, cur, block, direction, row);
            assert(text::content_bytes(next, row) == text::content_bytes(cur, row));
        }
    }
    lemma_block(t, top, bottom);
    lemma_moved_parts(t, cur, block, direction);
    assert(next.subrange(0, text::line_start(t, top)) =~= t.subrange(
        0,
        text::line_start(t, top),
    ));
}

/// A block that cannot move stays.
proof fn lemma_no_move(
    t: Seq<u8>,
    cur: Seq<u8>,
    blocks: Seq<(int, int)>,
    direction: LineDirection,
    m: int,
)
    requires
        lines::blocks_apart(blocks, 1, text::line_count(t)),
        0 < m <= blocks.len(),
        is_partly_moved(t, cur, blocks, direction, m),
        !lines::is_movable(t, blocks[m - 1], direction),
    ensures
        is_partly_moved(t, cur, blocks, direction, m - 1),
{
    let first = first_passed(blocks, direction, m - 1);
    assert(0 <= blocks[m - 1].0 <= blocks[m - 1].1 < text::line_count(t));
    if m < blocks.len() {
        assert(blocks[m - 1].1 + 1 < blocks[m].0);
    }
    lemma_agree_moved(t, cur, blocks, direction, m, first);
    assert forall|row: int|
        #![trigger text::content_bytes(cur, row)]
        0 <= row < text::line_count(t) implies text::content_bytes(cur, row)
        == text::content_bytes(t, passed_row(t, blocks, direction, row, m - 1)) by {
        assert(passed_row(t, blocks, direction, row, m - 1) == passed_row(
            t,
            blocks,
            direction,
            row,
            m,
        ));
    }
}

/// The blocks before the `m`-th move, from the last to the first.
proof fn lemma_all_moved(
    t: Seq<u8>,
    cur: Seq<u8>,
    blocks: Seq<(int, int)>,
    direction: LineDirection,
    m: int,
)
    requires
        lines::blocks_apart(blocks, 1, text::line_count(t)),
        ends_plainly(t),
        0 <= m <= blocks.len(),
        is_partly_moved(t, cur, blocks, direction, m),
    ensures
        is_partly_moved(
            t,
            edit::applied(
                cur,
                lines::rewrite_edits(lines::move_rewrites(t, blocks, direction, m)),
            ),
            blocks,
            direction,
            0,
        ),
    decreases m,
{
    let rewrites = lines::move_rewrites(t, blocks, direction, m);
    let edits = lines::rewrite_edits(rewrites);
    if m > 0 {
        let before = lines::move_rewrites(t, blocks, direction, m - 1);
        if lines::is_movable(t, blocks[m - 1], direction) {
            let rewrite = lines::move_rewrite(t, blocks[m - 1], direction);
            lemma_move_step(t, cur, blocks, direction, m);
            lemma_all_moved(
                t,
                moved_in(t, cur, blocks[m - 1], direction),
                blocks,
                direction,
                m - 1,
            );
            assert(edits.last() == (rewrite.start, rewrite.end, rewrite.text));
            assert(edits.drop_last() =~= lines::rewrite_edits(before));
        } else {
            lemma_no_move(t, cur, blocks, direction, m);
            lemma_all_moved(t, cur, blocks, direction, m - 1);
        }
    }
}

/// Moving blocks of rows that do not touch past the next row changes the places
/// of the rows of those that can move, and of the rows that they pass, and of no
/// other.
pub proof fn law_moved_blocks(t: Seq<u8>, blocks: Seq<(int, int)>, direction: LineDirection)
    requires
        lines::blocks_apart(blocks, 1, text::line_count(t)),
        ends_plainly(t),
    ensures
        ({
            let after = edit::applied(
                t,
                lines::rewrite_edits(
                    lines::move_rewrites(t, blocks, direction, blocks.len() as int),
                ),
            );
            &&& text::line_count(after) == text::line_count(t)
            &&& forall|row: int|
                #![trigger text::content_bytes(after, row)]
                0 <= row < text::line_count(t) ==> text::content_bytes(after, row)
                    == text::content_bytes(t, passed_row(t, blocks, direction, row, 0))
        }),
{
    lemma_all_moved(t, t, blocks, direction, blocks.len() as int);
}

} // verus!
