//! Buffer edits: byte ranges of the text and what replaces them.

use crate::cursor;
use crate::cursor::EditorSelection;
use crate::order;
use crate::text;
use std::ops::Range;
use vstd::prelude::*;
use vstd::utf8::*;

verus! {

/// One edit: start, end and the bytes that replace what lies between.
pub open spec fn edit_view(edit: (Range<usize>, String)) -> (int, int, Seq<u8>) {
    (edit.0.start as int, edit.0.end as int, encode_utf8(edit.1@))
}

pub open spec fn edits_view(edits: Seq<(Range<usize>, String)>) -> Seq<(int, int, Seq<u8>)> {
    Seq::new(edits.len(), |i: int| edit_view(edits[i]))
}

pub broadcast proof fn lemma_edits_view_push(
    edits: Seq<(Range<usize>, String)>,
    edit: (Range<usize>, String),
)
    ensures
        #[trigger] edits_view(edits.push(edit)) == edits_view(edits).push(edit_view(edit)),
{
    assert(edits_view(edits.push(edit)) =~= edits_view(edits).push(edit_view(edit)));
}

/// Each edit is a range of the text, and each starts at or after the end of
/// the one before it.
pub open spec fn edits_ordered(edits: Seq<(int, int, Seq<u8>)>, len: int) -> bool {
    &&& forall|i: int|
        #![trigger edits[i]]
        0 <= i < edits.len() ==> 0 <= edits[i].0 <= edits[i].1 <= len
    &&& forall|i: int, j: int|
        #![trigger edits[i], edits[j]]
        0 <= i < j < edits.len() ==> edits[i].1 <= edits[j].0
}

/// The text with one edit made.
pub open spec fn replaced(t: Seq<u8>, edit: (int, int, Seq<u8>)) -> Seq<u8> {
    t.subrange(0, edit.0) + edit.2 + t.subrange(edit.1, t.len() as int)
}

/// The text with every edit made, the last one first.
pub open spec fn applied(t: Seq<u8>, edits: Seq<(int, int, Seq<u8>)>) -> Seq<u8>
    decreases edits.len(),
{
    if edits.len() == 0 {
        t
    } else {
        applied(replaced(t, edits.last()), edits.drop_last())
    }
}

/// Bytes that the first `n` edits insert.
pub open spec fn added(edits: Seq<(int, int, Seq<u8>)>, n: int) -> int
    decreases n,
{
    if n <= 0 {
        0
    } else {
        added(edits, n - 1) + edits[n - 1].2.len()
    }
}

/// Bytes that the first `n` edits remove.
pub open spec fn removed(edits: Seq<(int, int, Seq<u8>)>, n: int) -> int
    decreases n,
{
    if n <= 0 {
        0
    } else {
        removed(edits, n - 1) + (edits[n - 1].1 - edits[n - 1].0)
    }
}

/// Growth of the text by the first `n` edits.
pub open spec fn growth(edits: Seq<(int, int, Seq<u8>)>, n: int) -> int {
    added(edits, n) - removed(edits, n)
}

/// Ordered edits remove no more than what lies before the end of the last.
pub proof fn lemma_removed(edits: Seq<(int, int, Seq<u8>)>, len: int, n: int)
    requires
        edits_ordered(edits, len),
        0 <= n <= edits.len(),
    ensures
        0 <= removed(edits, n),
        n > 0 ==> removed(edits, n) <= edits[n - 1].1,
        n < edits.len() ==> removed(edits, n) <= edits[n].0,
    decreases n,
{
    if n > 0 {
        lemma_removed(edits, len, n - 1);
        if n < edits.len() {
            assert(edits[n - 1].1 <= edits[n].0);
        }
    }
}

/// Each edit inserts at most `bound` bytes, so `n` of them at most `n * bound`.
pub proof fn lemma_added(edits: Seq<(int, int, Seq<u8>)>, bound: int, n: int)
    requires
        0 <= n <= edits.len(),
        0 <= bound,
        forall|i: int| #![trigger edits[i]] 0 <= i < edits.len() ==> edits[i].2.len() <= bound,
    ensures
        0 <= added(edits, n) <= n * bound,
        added(edits, n) <= edits.len() * bound,
    decreases n,
{
    if n > 0 {
        lemma_added(edits, bound, n - 1);
        assert((n - 1) * bound + bound == n * bound) by (nonlinear_arith);
    } else {
        assert(n * bound == 0) by (nonlinear_arith)
            requires
                n == 0,
        ;
    }
    assert(n * bound <= edits.len() * bound) by (nonlinear_arith)
        requires
            n <= edits.len(),
            0 <= bound,
    ;
}

/// The keys by which edits are ordered: where each starts, then where it ends.
pub open spec fn edit_keys(edits: Seq<(int, int, Seq<u8>)>) -> Seq<(int, int)> {
    Seq::new(edits.len(), |i: int| (edits[i].0, edits[i].1))
}

/// The edits in the order in which they lie in the text.
pub open spec fn sorted_edits(edits: Seq<(int, int, Seq<u8>)>) -> Seq<(int, int, Seq<u8>)> {
    let order = order::sorted_order(edit_keys(edits), edits.len() as int);
    Seq::new(edits.len(), |i: int| edits[order[i]])
}

/// Whether edit `i` ends after the next one starts.
pub open spec fn overlaps_next(edits: Seq<(int, int, Seq<u8>)>, i: int) -> bool {
    edits[i].1 > edits[i + 1].0
}

/// Whether an edit ends after the next one starts.
pub open spec fn has_overlap(edits: Seq<(int, int, Seq<u8>)>) -> bool {
    exists|i: int| 0 <= i < edits.len() - 1 && #[trigger] overlaps_next(edits, i)
}

/// Ranges that do not overlap their successors lie one after the other.
pub proof fn lemma_edits_ordered(edits: Seq<(int, int, Seq<u8>)>, len: int)
    requires
        !has_overlap(edits),
        forall|i: int|
            #![trigger edits[i]]
            0 <= i < edits.len() ==> 0 <= edits[i].0 <= edits[i].1 <= len,
    ensures
        edits_ordered(edits, len),
{
    assert forall|i: int, j: int| #![trigger edits[i], edits[j]] 0 <= i < j < edits.len() implies edits[i].1
        <= edits[j].0 by {
        lemma_ordered_pair(edits, len, i, j);
    }
}

proof fn lemma_ordered_pair(edits: Seq<(int, int, Seq<u8>)>, len: int, i: int, j: int)
    requires
        !has_overlap(edits),
        forall|i: int|
            #![trigger edits[i]]
            0 <= i < edits.len() ==> 0 <= edits[i].0 <= edits[i].1 <= len,
        0 <= i < j < edits.len(),
    ensures
        edits[i].1 <= edits[j].0,
    decreases j - i,
{
    if i + 1 < j {
        lemma_ordered_pair(edits, len, i, j - 1);
        assert(edits[j - 1].0 <= edits[j - 1].1);
    }
    let k = j - 1;
    assert(!overlaps_next(edits, k));
}

/// Sorting keeps what each edit is.
pub proof fn lemma_sorted_edits(edits: Seq<(int, int, Seq<u8>)>, len: int)
    requires
        forall|i: int|
            #![trigger edits[i]]
            0 <= i < edits.len() ==> 0 <= edits[i].0 <= edits[i].1 <= len,
    ensures
        sorted_edits(edits).len() == edits.len(),
        forall|i: int|
            #![trigger sorted_edits(edits)[i]]
            0 <= i < edits.len() ==> 0 <= sorted_edits(edits)[i].0 <= sorted_edits(edits)[i].1
                <= len,
{
    order::lemma_sorted_order(edit_keys(edits), edits.len() as int);
}

/// Sorts edits by where they start, then by where they end; also returns the
/// former index of each.
pub fn sort_edits(edits: &Vec<(Range<usize>, String)>) -> (result: (
    Vec<(Range<usize>, String)>,
    Vec<usize>,
))
    ensures
        edits_view(result.0@) == sorted_edits(edits_view(edits@)),
        order::indices_view(result.1@) == order::sorted_order(
            edit_keys(edits_view(edits@)),
            edits@.len() as int,
        ),
        result.0@.len() == edits@.len(),
        result.1@.len() == edits@.len(),
        forall|i: int| 0 <= i < result.1@.len() ==> #[trigger] result.1@[i] < edits@.len(),
{
    let ghost ev = edits_view(edits@);
    let mut keys: Vec<(usize, usize)> = Vec::new();
    let mut i: usize = 0;
    while i < edits.len()
        invariant
            i <= edits@.len(),
            keys@.len() == i,
            forall|k: int|
                0 <= k < i ==> #[trigger] keys@[k] == (edits@[k].0.start, edits@[k].0.end),
        decreases edits.len() - i,
    {
        keys.push((edits[i].0.start, edits[i].0.end));
        i = i + 1;
    }
    assert(order::keys_view(keys@) =~= edit_keys(ev));
    let order = order::stable_order(&keys);
    let mut sorted: Vec<(Range<usize>, String)> = Vec::new();
    let mut j: usize = 0;
    while j < order.len()
        invariant
            j <= order@.len(),
            order@.len() == edits@.len(),
            ev == edits_view(edits@),
            sorted@.len() == j,
            order::indices_view(order@) == order::sorted_order(
                edit_keys(ev),
                edits@.len() as int,
            ),
            forall|i: int| 0 <= i < order@.len() ==> #[trigger] order@[i] < edits@.len(),
            forall|k: int| 0 <= k < j ==> edit_view(#[trigger] sorted@[k]) == sorted_edits(ev)[k],
        decreases order.len() - j,
    {
        let at: usize = order[j];
        let edit = &edits[at];
        assert(order::indices_view(order@)[j as int] == at);
        sorted.push((edit.0.start..edit.0.end, edit.1.clone()));
        j = j + 1;
    }
    assert(edits_view(sorted@) =~= sorted_edits(ev));
    (sorted, order)
}

/// Whether an edit ends after the next one starts.
pub fn edits_overlap(edits: &Vec<(Range<usize>, String)>) -> (overlap: bool)
    ensures
        overlap == has_overlap(edits_view(edits@)),
{
    let ghost ev = edits_view(edits@);
    let mut i: usize = 1;
    while i < edits.len()
        invariant
            1 <= i,
            i <= edits@.len() || edits@.len() == 0,
            ev == edits_view(edits@),
            forall|k: int| 0 <= k < i - 1 ==> !#[trigger] overlaps_next(ev, k),
        decreases edits.len() - i,
    {
        if edits[i - 1].0.end > edits[i].0.start {
            assert(overlaps_next(ev, i - 1));
            return true;
        }
        i = i + 1;
    }
    false
}

/// Edits together with the selections that hold once they are made.
#[derive(Debug, Clone, PartialEq, Eq)]
pub struct EditPlan {
    pub edits: Vec<(Range<usize>, String)>,
    pub selections_after: Vec<EditorSelection>,
}

impl EditPlan {
    pub open spec fn view_edits(&self) -> Seq<(int, int, Seq<u8>)> {
        edits_view(self.edits@)
    }
}

pub open spec fn min_int(a: int, b: int) -> int {
    if a <= b {
        a
    } else {
        b
    }
}

/// Where `offset` comes to lie once the edits from `p` on are made, given that
/// those before grew the text by `delta`. An offset inside a replaced range
/// keeps its distance from the start as far as the replacement reaches. An
/// offset at an insertion moves past it where `eager` holds.
pub open spec fn shifted(
    edits: Seq<(int, int, Seq<u8>)>,
    offset: int,
    eager: bool,
    p: int,
    delta: int,
) -> int
    decreases edits.len() - p,
{
    if p < 0 || p >= edits.len() {
        offset + delta
    } else {
        let (start, end, text) = edits[p];
        if offset < start {
            offset + delta
        } else if start == end {
            shifted(
                edits,
                offset,
                eager,
                p + 1,
                if offset > start || eager {
                    delta + text.len()
                } else {
                    delta
                },
            )
        } else if offset < end {
            start + delta + min_int(offset - start, text.len() as int)
        } else {
            shifted(edits, offset, eager, p + 1, delta + text.len() - (end - start))
        }
    }
}

pub proof fn lemma_added_monotonic(edits: Seq<(int, int, Seq<u8>)>, a: int, b: int)
    requires
        0 <= a <= b <= edits.len(),
    ensures
        0 <= added(edits, a) <= added(edits, b),
    decreases b,
{
    if a < b {
        lemma_added_monotonic(edits, a, b - 1);
    } else if a > 0 {
        lemma_added_monotonic(edits, a - 1, b - 1);
    }
}

/// A shifted offset is within what the edits add.
pub proof fn lemma_shifted_bound(
    edits: Seq<(int, int, Seq<u8>)>,
    len: int,
    offset: int,
    eager: bool,
    p: int,
    more: int,
)
    requires
        edits_ordered(edits, len),
        0 <= p <= edits.len(),
        0 <= offset,
        p > 0 ==> edits[p - 1].1 <= offset,
        0 <= more <= added(edits, p),
    ensures
        0 <= shifted(edits, offset, eager, p, more - removed(edits, p)) <= offset + added(
            edits,
            edits.len() as int,
        ),
    decreases edits.len() - p,
{
    lemma_removed(edits, len, p);
    lemma_added_monotonic(edits, p, edits.len() as int);
    if p < edits.len() {
        lemma_added_monotonic(edits, p + 1, edits.len() as int);
        let (start, end, text) = edits[p];
        if offset < start {
        } else if start == end {
            lemma_shifted_bound(
                edits,
                len,
                offset,
                eager,
                p + 1,
                if offset > start || eager {
                    more + text.len()
                } else {
                    more
                },
            );
        } else if offset < end {
        } else {
            lemma_shifted_bound(edits, len, offset, eager, p + 1, more + text.len());
        }
    }
}

/// Where `offset` comes to lie once the edits are made.
pub fn shift_offset(edits: &Vec<(Range<usize>, String)>, offset: usize, eager: bool) -> (moved:
    usize)
    requires
        exists|len: int| edits_ordered(edits_view(edits@), len),
        offset + added(edits_view(edits@), edits@.len() as int) <= usize::MAX,
    ensures
        moved == shifted(edits_view(edits@), offset as int, eager, 0, 0),
{
    let ghost ev = edits_view(edits@);
    let ghost len = choose|len: int| edits_ordered(ev, len);
    let mut more: usize = 0;
    let mut less: usize = 0;
    let mut p: usize = 0;
    while p < edits.len()
        invariant
            ev == edits_view(edits@),
            edits_ordered(ev, len),
            offset + added(ev, edits@.len() as int) <= usize::MAX,
            p <= edits@.len(),
            p > 0 ==> ev[p - 1].1 <= offset,
            less == removed(ev, p as int),
            more <= added(ev, p as int),
            shifted(ev, offset as int, eager, 0, 0) == shifted(
                ev,
                offset as int,
                eager,
                p as int,
                more - less,
            ),
        decreases edits.len() - p,
    {
        proof {
            lemma_removed(ev, len, p as int);
            lemma_added_monotonic(ev, p as int, edits@.len() as int);
            lemma_added_monotonic(ev, p + 1, edits@.len() as int);
            assert(ev[p as int] == edit_view(edits@[p as int]));
        }
        let start: usize = edits[p].0.start;
        let end: usize = edits[p].0.end;
        let size: usize = edits[p].1.as_str().as_bytes().len();
        if offset < start {
            return offset + more - less;
        }
        if start == end {
            if offset > start || eager {
                more = more + size;
            }
        } else {
            if offset < end {
                let inside: usize = if offset - start <= size {
                    offset - start
                } else {
                    size
                };
                return start + more - less + inside;
            }
            more = more + size;
            less = less + (end - start);
        }
        p = p + 1;
    }
    proof {
        lemma_removed(ev, len, p as int);
    }
    offset + more - less
}

/// Where the selection comes to lie once the edits are made.
pub open spec fn shifted_selection(
    edits: Seq<(int, int, Seq<u8>)>,
    selection: EditorSelection,
    eager: bool,
) -> EditorSelection {
    cursor::spec_between(
        shifted(edits, selection.range.start as int, eager, 0, 0) as usize,
        shifted(edits, selection.range.end as int, eager, 0, 0) as usize,
        selection.reversed,
    )
}

pub fn shift_selection(
    edits: &Vec<(Range<usize>, String)>,
    selection: EditorSelection,
    eager: bool,
) -> (moved: EditorSelection)
    requires
        exists|len: int| edits_ordered(edits_view(edits@), len),
        selection.range.start + added(edits_view(edits@), edits@.len() as int) <= usize::MAX,
        selection.range.end + added(edits_view(edits@), edits@.len() as int) <= usize::MAX,
    ensures
        moved == shifted_selection(edits_view(edits@), selection, eager),
{
    let start = shift_offset(edits, selection.range.start, eager);
    let end = shift_offset(edits, selection.range.end, eager);
    EditorSelection::between(start, end, selection.reversed)
}

/// What a part of the text reads after an edit before it, behind it or in it.
pub proof fn lemma_reading(t: Seq<u8>, e: (int, int, Seq<u8>), x: int, y: int)
    requires
        0 <= e.0 <= e.1 <= t.len(),
        0 <= x <= y <= t.len(),
    ensures
        y <= e.0 ==> replaced(t, e).subrange(x, y) == t.subrange(x, y),
        x >= e.1 ==> replaced(t, e).subrange(
            x + e.2.len() - (e.1 - e.0),
            y + e.2.len() - (e.1 - e.0),
        ) == t.subrange(x, y),
        x <= e.0 && e.1 <= y ==> replaced(t, e).subrange(
            x,
            y + e.2.len() - (e.1 - e.0),
        ) == replaced(t.subrange(x, y), (e.0 - x, e.1 - x, e.2)),
{
    let delta = e.2.len() - (e.1 - e.0);
    let after = replaced(t, e);
    if y <= e.0 {
        assert(after.subrange(x, y) =~= t.subrange(x, y));
    }
    if x >= e.1 {
        assert(after.subrange(x + delta, y + delta) =~= t.subrange(x, y));
    }
    if x <= e.0 && e.1 <= y {
        assert(after.subrange(x, y + delta) =~= replaced(
            t.subrange(x, y),
            (e.0 - x, e.1 - x, e.2),
        ));
    }
}

/// A boundary outside an edit stays one.
pub proof fn lemma_boundary_kept(t: Seq<u8>, e: (int, int, Seq<u8>), o: int)
    requires
        0 <= e.0 <= e.1 <= t.len(),
        valid_utf8(t),
        valid_utf8(e.2),
        text::is_boundary(t, e.0),
        text::is_boundary(t, e.1),
        0 <= o <= t.len(),
        text::is_boundary(t, o),
    ensures
        o <= e.0 ==> text::is_boundary(replaced(t, e), o),
        o >= e.1 ==> text::is_boundary(replaced(t, e), o + e.2.len() - (e.1 - e.0)),
{
    let delta = e.2.len() - (e.1 - e.0);
    let after = replaced(t, e);
    if e.2.len() > 0 {
        assert(valid_first_scalar(e.2));
        assert(after[e.0] == e.2[0]);
    } else if e.1 < t.len() {
        assert(after[e.0] == t[e.1]);
    }
    if t.len() > 0 {
        assert(valid_first_scalar(t));
    }
    if o >= e.1 && o < t.len() {
        assert(after[o + delta] == t[o]);
    }
    if o < e.0 {
        assert(after[o] == t[o]);
    }
}

} // verus!
