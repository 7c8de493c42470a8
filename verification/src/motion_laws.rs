//! What moving, adding, typing and deleting at every cursor comes to.

use crate::cursor;
use crate::cursor::EditorSelection;
use crate::motion;
use crate::motion::{CursorMotion, MultiCursorDelete};
use crate::multi_cursor as cursors;
use crate::pairs::TrackedAutoClosingPair;
use crate::scalars;
use crate::scalars::{is_next_boundary, is_previous_boundary, is_row_end, is_row_start};
use crate::text;
use crate::text_laws;
use vstd::prelude::*;
use vstd::utf8::*;

verus! {

/// The selection is a range of the text between character boundaries.
pub open spec fn lies_in(t: Seq<u8>, selection: EditorSelection) -> bool {
    &&& selection.range.start <= selection.range.end <= t.len()
    &&& is_char_boundary(t, selection.range.start as int)
    &&& is_char_boundary(t, selection.range.end as int)
}

/// Where the caret of the selection stands.
pub open spec fn caret_of(selection: EditorSelection) -> int {
    if selection.reversed {
        selection.range.start as int
    } else {
        selection.range.end as int
    }
}

/// The end of the selection where the caret does not stand.
pub open spec fn other_end(selection: EditorSelection) -> int {
    if selection.reversed {
        selection.range.end as int
    } else {
        selection.range.start as int
    }
}

/// The selection is a caret at the offset.
pub open spec fn is_caret_at(selection: EditorSelection, o: int) -> bool {
    selection.range.start == o && selection.range.end == o && !selection.reversed
}

/// The selection reaches from `anchor` to its caret at `head`.
pub open spec fn reaches(selection: EditorSelection, anchor: int, head: int) -> bool {
    &&& selection.range.start == if anchor <= head { anchor } else { head }
    &&& selection.range.end == if anchor <= head { head } else { anchor }
    &&& selection.reversed == (head < anchor)
}

/// The selection is what a motion of its caret to `head` leaves: extended there,
/// or a caret.
pub open spec fn is_led_to(
    before: EditorSelection,
    after: EditorSelection,
    head: int,
    extend: bool,
) -> bool {
    if extend {
        reaches(after, other_end(before), head)
    } else {
        is_caret_at(after, head)
    }
}

/// A horizontal motion leads each caret, and each selection that is extended, over
/// one character: forward to the least boundary behind, back to the greatest
/// before, and not beyond the ends of the text. A range that is not extended
/// collapses to that side of it.
#[verifier::rlimit(30)]
pub proof fn law_horizontal_motion(
    t: Seq<u8>,
    selections: Seq<EditorSelection>,
    i: int,
    forward: bool,
    extend: bool,
    p: int,
)
    requires
        valid_utf8(t),
        t.len() <= usize::MAX,
        0 <= i < selections.len(),
        lies_in(t, selections[i]),
    ensures
        ({
            let before = selections[i];
            let after = motion::all_moved(t, selections, CursorMotion::Horizontal { forward }, extend);
            let moved = after[i];
            let o = caret_of(before);
            &&& after.len() == selections.len()
            &&& if before.range.start < before.range.end && !extend {
                is_caret_at(
                    moved,
                    if forward {
                        before.range.end as int
                    } else {
                        before.range.start as int
                    },
                )
            } else if forward {
                &&& o == t.len() ==> is_led_to(before, moved, o, extend)
                &&& is_next_boundary(t, o, p) ==> is_led_to(before, moved, p, extend)
            } else {
                &&& o == 0 ==> is_led_to(before, moved, o, extend)
                &&& is_previous_boundary(t, o, p) ==> is_led_to(before, moved, p, extend)
            }
        }),
{
    let before = selections[i];
    let o = caret_of(before);
    if forward && o < t.len() {
        scalars::lemma_next_boundary(t, o);
        let q = text::ceil_boundary(t, o + 1);
        if is_next_boundary(t, o, p) && p != q {
            assert(o < p < q || o < q < p);
        }
    }
    if !forward && o > 0 {
        scalars::lemma_previous_boundary(t, o);
        let q = text::floor_boundary(t, o - 1);
        if is_previous_boundary(t, o, p) && p != q {
            assert(p < q < o || q < p < o);
        }
    }
}

/// A caret has somewhere to go inside the text, and moving back after moving
/// forward, or forward after back, brings it to where it was.
#[verifier::rlimit(30)]
pub proof fn law_horizontal_motion_is_taken_back(t: Seq<u8>, o: usize, forward: bool)
    requires
        valid_utf8(t),
        t.len() <= usize::MAX,
        o <= t.len(),
        is_char_boundary(t, o as int),
        forward ==> o < t.len(),
        !forward ==> o > 0,
    ensures
        ({
            let caret = EditorSelection {
                range: crate::cursor::Selection { start: o, end: o },
                reversed: false,
            };
            let there = motion::all_moved(
                t,
                seq![caret],
                CursorMotion::Horizontal { forward },
                false,
            );
            let back = motion::all_moved(
                t,
                there,
                CursorMotion::Horizontal { forward: !forward },
                false,
            );
            &&& there[0] != caret
            &&& back =~= seq![caret]
        }),
{
    let caret = EditorSelection {
        range: crate::cursor::Selection { start: o, end: o },
        reversed: false,
    };
    let all = seq![caret];
    let there = motion::all_moved(t, all, CursorMotion::Horizontal { forward }, false);
    text::lemma_boundary(t, o as int);
    if forward {
        let q = text::ceil_boundary(t, o + 1);
        scalars::lemma_next_boundary(t, o as int);
        law_horizontal_motion(t, all, 0, true, false, q);
        law_horizontal_motion(t, there, 0, false, false, o as int);
        assert(is_previous_boundary(t, q, o as int));
    } else {
        let q = text::floor_boundary(t, o - 1);
        scalars::lemma_previous_boundary(t, o as int);
        law_horizontal_motion(t, all, 0, false, false, q);
        law_horizontal_motion(t, there, 0, true, false, o as int);
        assert(is_next_boundary(t, q, o as int));
    }
}

/// A motion to a boundary of the row leads each caret there.
pub proof fn law_motion_to_row_ends(
    t: Seq<u8>,
    selections: Seq<EditorSelection>,
    i: int,
    extend: bool,
    p: int,
    q: int,
)
    requires
        valid_utf8(t),
        t.len() <= usize::MAX,
        0 <= i < selections.len(),
        lies_in(t, selections[i]),
        is_row_start(t, caret_of(selections[i]), p),
        is_row_end(t, caret_of(selections[i]), q),
    ensures
        is_led_to(
            selections[i],
            motion::all_moved(t, selections, CursorMotion::LineBoundary { end: false }, extend)[i],
            p,
            extend,
        ),
        is_led_to(
            selections[i],
            motion::all_moved(t, selections, CursorMotion::LineBoundary { end: true }, extend)[i],
            q,
            extend,
        ),
        is_led_to(
            selections[i],
            motion::all_moved(t, selections, CursorMotion::DocumentBoundary { end: false }, extend)[i],
            0,
            extend,
        ),
        is_led_to(
            selections[i],
            motion::all_moved(t, selections, CursorMotion::DocumentBoundary { end: true }, extend)[i],
            t.len() as int,
            extend,
        ),
{
    let o = caret_of(selections[i]);
    text::lemma_boundary(t, o);
    scalars::lemma_row_ends(t, o);
    scalars::lemma_row_start_is_one(t, o, p, text::line_start(t, text::row_at(t, o)));
    scalars::lemma_row_end_is_one(t, o, q, text::line_end(t, text::row_at(t, o)));
}

/// Where the next row starts.
proof fn lemma_row_below(t: Seq<u8>, o: int)
    requires
        0 <= o <= t.len(),
        text::is_boundary(t, o),
    ensures
        ({
            let row = text::row_at(t, o);
            let q = text::line_end(t, row);
            &&& 0 <= row < text::line_count(t)
            &&& row + 1 < text::line_count(t) <==> q < t.len()
            &&& q < t.len() ==> text::line_start(t, row + 1) == q + 1
        }),
{
    let row = text::row_at(t, o);
    text::lemma_row_at(t, o);
    text::lemma_line_end(t, row);
}

/// A motion up or down by one row keeps the byte column as far as that row reaches;
/// from the first row up and from the last row down nothing moves.
#[verifier::rlimit(30)]
pub proof fn law_vertical_motion(
    t: Seq<u8>,
    selections: Seq<EditorSelection>,
    i: int,
    extend: bool,
    p: int,
    q: int,
    above: int,
    below: int,
)
    requires
        valid_utf8(t),
        t.len() <= usize::MAX,
        0 <= i < selections.len(),
        lies_in(t, selections[i]),
        is_row_start(t, caret_of(selections[i]), p),
        is_row_end(t, caret_of(selections[i]), q),
        p > 0 ==> is_row_start(t, p - 1, above),
        q < t.len() ==> is_row_end(t, q + 1, below),
    ensures
        ({
            let before = selections[i];
            let column = caret_of(before) - p;
            let up = motion::all_moved(t, selections, CursorMotion::Vertical { direction: -1isize }, extend)[i];
            let down = motion::all_moved(t, selections, CursorMotion::Vertical { direction: 1 }, extend)[i];
            &&& p > 0 ==> is_led_to(
                before,
                up,
                if above + column <= p - 1 { above + column } else { p - 1 },
                extend,
            )
            &&& p == 0 ==> up.range == before.range && (extend ==> reaches(
                up,
                other_end(before),
                caret_of(before),
            )) && (!extend ==> up == before)
            &&& q < t.len() ==> is_led_to(
                before,
                down,
                if q + 1 + column <= below { q + 1 + column } else { below },
                extend,
            )
            &&& q == t.len() ==> down.range == before.range && (extend ==> reaches(
                down,
                other_end(before),
                caret_of(before),
            )) && (!extend ==> down == before)
        }),
{
    let o = caret_of(selections[i]);
    let row = text::row_at(t, o);
    text::lemma_boundary(t, o);
    scalars::lemma_row_ends(t, o);
    scalars::lemma_row_start_is_one(t, o, p, text::line_start(t, row));
    scalars::lemma_row_end_is_one(t, o, q, text::line_end(t, row));
    lemma_row_below(t, o);
    if p > 0 {
        // The row above ends before the line feed in front of this one.
        text::lemma_line_start(t, row);
        if row == 0 {
            assert(false);
        }
        text::lemma_line_start(t, row - 1);
        text::lemma_line_end(t, row - 1);
        assert(text::line_end(t, row - 1) == p - 1);
        assert(is_row_start(t, p - 1, text::line_start(t, row - 1)));
        scalars::lemma_row_start_is_one(t, p - 1, above, text::line_start(t, row - 1));
    } else {
        text::lemma_newlines_gap(t, 0, o);
        assert(row == 0);
    }
    if q < t.len() {
        text::lemma_line_start(t, row + 1);
        text::lemma_line_end(t, row + 1);
        assert(is_row_end(t, q + 1, text::line_end(t, row + 1)));
        scalars::lemma_row_end_is_one(t, q + 1, below, text::line_end(t, row + 1));
    }
}

/// A vertical motion that can be made ends in a row as far away as was asked for.
pub proof fn law_vertical_motion_crosses_rows(
    t: Seq<u8>,
    selections: Seq<EditorSelection>,
    i: int,
    direction: isize,
)
    requires
        valid_utf8(t),
        t.len() <= usize::MAX,
        0 <= i < selections.len(),
        lies_in(t, selections[i]),
        0 <= text::newlines(t, caret_of(selections[i])) + direction <= text::newlines(
            t,
            t.len() as int,
        ),
    ensures
        text::newlines(
            t,
            caret_of(
                motion::all_moved(t, selections, CursorMotion::Vertical { direction }, false)[i],
            ),
        ) == text::newlines(t, caret_of(selections[i])) + direction,
{
    let o = caret_of(selections[i]);
    text::lemma_boundary(t, o);
    scalars::lemma_row_ends(t, o);
    let row = text::row_at(t, o) + direction;
    text::lemma_row_at(t, o);
    text::lemma_line_start(t, row);
    text::lemma_line_end(t, row);
    let moved = motion::all_moved(t, selections, CursorMotion::Vertical { direction }, false)[i];
    text::lemma_newlines_gap(t, text::line_start(t, row), caret_of(moved));
}

/// A caret is added for each selection that can move by the rows, where that
/// motion would lead its own caret, and for no other.
#[verifier::rlimit(30)]
pub proof fn law_added_carets_are_moved_carets(
    t: Seq<u8>,
    selections: Seq<EditorSelection>,
    direction: isize,
    n: int,
)
    requires
        valid_utf8(t),
        t.len() <= usize::MAX,
        0 <= n <= selections.len(),
    ensures
        ({
            let added = motion::adjacent_carets(t, selections, direction as int, n);
            let down = motion::all_moved(
                t,
                selections,
                CursorMotion::Vertical { direction },
                false,
            );
            &&& added.len() <= n
            &&& forall|i: int|
                #![trigger selections[i]]
                0 <= i < n && motion::adjacent_offset(
                    t,
                    caret_of(selections[i]),
                    direction as int,
                ) is Some ==> added.contains(down[i])
            &&& forall|k: int| 0 <= k < added.len() ==> down.contains(#[trigger] added[k])
        }),
    decreases n,
{
    let added = motion::adjacent_carets(t, selections, direction as int, n);
    let down = motion::all_moved(t, selections, CursorMotion::Vertical { direction }, false);
    if n > 0 {
        law_added_carets_are_moved_carets(t, selections, direction, n - 1);
        let before = motion::adjacent_carets(t, selections, direction as int, n - 1);
        assert forall|i: int|
            #![trigger selections[i]]
            0 <= i < n && motion::adjacent_offset(
                t,
                caret_of(selections[i]),
                direction as int,
            ) is Some implies added.contains(down[i]) by {
            if i < n - 1 {
                let k = choose|k: int| 0 <= k < before.len() && before[k] == down[i];
                assert(added[k] == down[i]);
            } else {
                assert(added.last() == down[i]);
            }
        }
        assert forall|k: int| 0 <= k < added.len() implies down.contains(#[trigger] added[k]) by {
            if k < before.len() {
                assert(added[k] == before[k]);
            } else {
                assert(down[n - 1] == added[k]);
            }
        }
    }
}

/// Of the secondary carets at a place the first is found, where there is one.
pub proof fn law_secondary_caret_is_first(selections: Seq<EditorSelection>, at: int, from: int)
    requires
        0 <= from,
    ensures
        match motion::secondary_caret(selections, at, from) {
            Some(i) => {
                &&& from <= i < selections.len()
                &&& selections[i].range.start == at
                &&& selections[i].range.end == at
                &&& forall|k: int|
                    from <= k < i ==> !(#[trigger] selections[k].range.start == at
                        && selections[k].range.end == at)
            },
            None => forall|k: int|
                from <= k < selections.len() ==> !(#[trigger] selections[k].range.start == at
                    && selections[k].range.end == at),
        },
    decreases selections.len() - from,
{
    if from < selections.len() {
        law_secondary_caret_is_first(selections, at, from + 1);
    }
}

/// What a deletion removes: what is selected, else one character before or behind
/// the caret, or the text to the boundary of the row, and where the caret is there
/// already, the line feed. A backspace that stands between an empty pair that was
/// closed automatically removes both of its tokens.
#[verifier::rlimit(30)]
pub proof fn law_deletion_removes(
    t: Seq<u8>,
    selection: EditorSelection,
    watched: Seq<TrackedAutoClosingPair>,
    start: int,
    end: int,
    before: int,
    behind: int,
)
    requires
        valid_utf8(t),
        lies_in(t, selection),
        is_row_start(t, caret_of(selection), start),
        is_row_end(t, caret_of(selection), end),
        caret_of(selection) > 0 ==> is_previous_boundary(t, caret_of(selection), before),
        caret_of(selection) < t.len() ==> is_next_boundary(t, caret_of(selection), behind),
    ensures
        ({
            let o = caret_of(selection);
            let back = motion::deletion(t, selection, MultiCursorDelete::Backward, watched);
            let on = motion::deletion(t, selection, MultiCursorDelete::Forward, watched);
            let to_start = motion::deletion(t, selection, MultiCursorDelete::ToLineStart, watched);
            let to_end = motion::deletion(t, selection, MultiCursorDelete::ToLineEnd, watched);
            if selection.range.start < selection.range.end {
                let own = (selection.range.start as int, selection.range.end as int);
                back == own && on == own && to_start == own && to_end == own
            } else {
                &&& watched.len() == 0 ==> back == (
                    if o > 0 {
                        before
                    } else {
                        0
                    },
                    o,
                )
                &&& on == (
                    o,
                    if o < t.len() {
                        behind
                    } else {
                        o
                    },
                )
                &&& to_start == (
                    if start < o || o == 0 {
                        start
                    } else {
                        o - 1
                    },
                    o,
                )
                &&& to_end == (
                    o,
                    if o < end || o == t.len() {
                        end
                    } else {
                        o + 1
                    },
                )
            }
        }),
{
    let o = caret_of(selection);
    text::lemma_boundary(t, o);
    scalars::lemma_row_ends(t, o);
    scalars::lemma_row_start_is_one(t, o, start, text::line_start(t, text::row_at(t, o)));
    scalars::lemma_row_end_is_one(t, o, end, text::line_end(t, text::row_at(t, o)));
    if o > 0 {
        scalars::lemma_previous_boundary(t, o);
        let q = text::floor_boundary(t, o - 1);
        if before != q {
            assert(before < q < o || q < before < o);
        }
    }
    if o < t.len() {
        scalars::lemma_next_boundary(t, o);
        let q = text::ceil_boundary(t, o + 1);
        if behind != q {
            assert(o < behind < q || o < q < behind);
        }
    }
}

/// What the selections hold, and only that, is copied: carets add nothing, and
/// between two selections stands one line feed.
pub proof fn law_copied_text(t: Seq<u8>, selections: Seq<EditorSelection>, n: int)
    requires
        0 <= n < selections.len(),
    ensures
        ({
            let before = motion::joined_selections(t, selections, n);
            let after = motion::joined_selections(t, selections, n + 1);
            let range = selections[n].range;
            let own = t.subrange(range.start as int, range.end as int);
            &&& range.start == range.end ==> after == before
            &&& range.start != range.end && before is None ==> after == Some(own)
            &&& range.start != range.end && before is Some ==> after == Some(
                before->Some_0 + seq![10u8] + own,
            )
            &&& motion::joined_selections(t, selections, 0) is None
        }),
{
}

/// The selections are copied in the order of the text, each once.
pub proof fn law_copied_in_text_order(selections: Seq<EditorSelection>, i: int, j: int)
    requires
        0 <= i < j < selections.len(),
    ensures
        ({
            let ordered = motion::in_text_order(selections);
            &&& ordered.len() == selections.len()
            &&& ordered[i].range.start <= ordered[j].range.start
            &&& selections.contains(ordered[i])
            &&& ordered.contains(selections[i])
            &&& ordered.contains(selections[j])
        }),
{
    let keys = Seq::new(
        selections.len(),
        |i: int| (selections[i].range.start as int, selections[i].range.end as int),
    );
    let n = selections.len() as int;
    crate::order::lemma_sorted_order(keys, n);
    let order = crate::order::sorted_order(keys, n);
    let ordered = motion::in_text_order(selections);
    assert(crate::order::key_le(keys[order[i]], keys[order[j]]));
    assert(selections[order[i]] == ordered[i]);
    assert(order.contains(i));
    let a = choose|a: int| 0 <= a < order.len() && order[a] == i;
    assert(ordered[a] == selections[i]);
    assert(order.contains(j));
    let b = choose|b: int| 0 <= b < order.len() && order[b] == j;
    assert(ordered[b] == selections[j]);
}

proof fn lemma_feed_ends_row(t: Seq<u8>, o: int)
    requires
        0 <= o < t.len(),
        t[o] == 10,
    ensures
        text::line_end(t, text::newlines(t, o)) == o,
        text::newlines(t, o) + 1 < text::line_count(t),
{
    let r = text::newlines(t, o);
    assert(text::newlines(t, o + 1) == r + 1);
    text::lemma_newlines_monotonic(t, o + 1, t.len() as int);
    text::lemma_newlines_bound(t, o);
    text::lemma_line_start(t, r);
    text::lemma_line_end(t, r);
    let start = text::line_start(t, r);
    let end = text::line_end(t, r);
    text::lemma_newlines_gap(t, start, end);
    if end < o {
        assert(text::newlines(t, end + 1) == r + 1);
        text::lemma_newlines_monotonic(t, end + 1, o);
    } else if o < end {
        text::lemma_newlines_monotonic(t, o + 1, end);
    }
}

#[verifier::rlimit(30)]
proof fn lemma_row_ends(t: Seq<u8>, carets: Seq<EditorSelection>, row: int, end: int, o: usize)
    requires
        0 <= row <= end,
        carets.len() + (end - row) <= cursors::MAX_EDITOR_SELECTIONS,
    ensures
        ({
            let all = motion::with_row_ends(t, carets, row, end);
            &&& all.len() == carets.len() + (end - row)
            &&& all.contains(cursor::spec_caret(o)) <==> carets.contains(cursor::spec_caret(o)) || (
            exists|r: int|
                row <= r < end && cursor::spec_caret(o) == cursor::spec_caret(
                    #[trigger] text::line_end(t, r) as usize,
                ))
        }),
    decreases end - row,
{
    if row < end {
        let own = cursor::spec_caret(text::line_end(t, row) as usize);
        let next = carets.push(own);
        lemma_row_ends(t, next, row + 1, end, o);
        let caret = cursor::spec_caret(o);
        if carets.contains(caret) {
            let k = choose|k: int| 0 <= k < carets.len() && carets[k] == caret;
            assert(next[k] == caret);
        }
        if next.contains(caret) {
            let k = choose|k: int| 0 <= k < next.len() && next[k] == caret;
            if k < carets.len() {
                assert(carets[k] == caret);
            }
        }
        if own == caret {
            assert(next.last() == caret);
        }
        if exists|r: int|
            row <= r < end && caret == cursor::spec_caret(
                #[trigger] text::line_end(t, r) as usize,
            ) {
            let r = choose|r: int|
                row <= r < end && caret == cursor::spec_caret(
                    #[trigger] text::line_end(t, r) as usize,
                );
            if r > row {
                assert(row + 1 <= r < end);
            }
        }
    }
}

/// A selection over several rows gets a caret at the end of each of them: before every
/// line feed that is selected, and at its own end unless a row starts there.
#[verifier::rlimit(30)]
pub proof fn law_row_end_carets(t: Seq<u8>, selection: EditorSelection, o: usize)
    requires
        selection.range.start < selection.range.end <= t.len() <= usize::MAX,
        text::is_boundary(t, selection.range.start as int),
        text::is_boundary(t, selection.range.end as int),
        text_laws::feeds(t.take(selection.range.end as int)) - text_laws::feeds(
            t.take(selection.range.start as int),
        ) < cursors::MAX_EDITOR_SELECTIONS,
    ensures
        motion::line_end_carets(t, seq![selection], 1).contains(cursor::spec_caret(o)) <==> {
            ||| selection.range.start <= o < selection.range.end && t[o as int] == 10
            ||| o == selection.range.end && t[o - 1] != 10
        },
{
    let s = selection.range.start as int;
    let e = selection.range.end as int;
    let all = seq![selection];
    assert(all[0] == selection);
    text::lemma_floor_boundary(t, s);
    text::lemma_floor_boundary(t, e);
    text_laws::lemma_feeds(t, s);
    text_laws::lemma_feeds(t, e);
    let r1 = text::row_at(t, s);
    let r2 = text::row_at(t, e);
    text::lemma_newlines_monotonic(t, s, e);
    text::lemma_newlines_bound(t, s);
    text::lemma_row_at(t, s);
    text::lemma_row_at(t, e);
    let none = Seq::<EditorSelection>::empty();
    assert(motion::line_end_carets(t, all, 0) == none);
    let rows = motion::with_row_ends(t, none, r1, r2);
    lemma_row_ends(t, none, r1, r2, o);
    let column = text::column_at(t, e);
    assert(column > 0 <==> t[e - 1] != 10) by {
        if t[e - 1] == 10 {
            text_laws::lemma_start_of_row(t, e);
        } else if column == 0 {
            text::lemma_line_start(t, r2);
            assert(text::line_start(t, r2) == e);
            if r2 == 0 {
                assert(text::line_start(t, 0) == 0);
            }
        }
    }
    let caret = cursor::spec_caret(o);
    let made = motion::line_end_carets(t, all, 1);
    if column > 0 {
        assert(made == rows.push(cursor::spec_caret(selection.range.end)));
        assert(made.last() == cursor::spec_caret(selection.range.end));
    } else {
        assert(made == rows);
    }
    if rows.contains(caret) {
        let k = choose|k: int| 0 <= k < rows.len() && rows[k] == caret;
        assert(made[k] == caret);
        let r = choose|r: int|
            r1 <= r < r2 && caret == cursor::spec_caret(#[trigger] text::line_end(t, r) as usize);
        text::lemma_line_end(t, r);
        text::lemma_line_end(t, r1);
        let l = text::line_end(t, r);
        assert(o == l);
        text::lemma_line_start_monotonic(t, r1, r);
        assert(s <= l) by {
            if r > r1 {
                text::lemma_line_start_monotonic(t, r1 + 1, r);
            }
        }
        assert(l < e) by {
            if e <= l {
                text::lemma_line_start(t, r);
                text::lemma_newlines_gap(t, text::line_start(t, r), l);
                text::lemma_newlines_monotonic(t, e, l);
            }
        }
        assert(t[l] == 10);
    }
    if s <= o < e && t[o as int] == 10 {
        let r = text::newlines(t, o as int);
        lemma_feed_ends_row(t, o as int);
        text::lemma_newlines_monotonic(t, s, o as int);
        assert(text::newlines(t, o + 1) == r + 1);
        text::lemma_newlines_monotonic(t, o + 1, e);
        assert(caret == cursor::spec_caret(text::line_end(t, r) as usize));
        assert(rows.contains(caret));
        let k = choose|k: int| 0 <= k < rows.len() && rows[k] == caret;
        assert(made[k] == caret);
    }
    if made.contains(caret) && !rows.contains(caret) {
        let k = choose|k: int| 0 <= k < made.len() && made[k] == caret;
        if k < rows.len() {
            assert(rows[k] == caret);
        }
    }
}

/// A motion to given places leads each caret to its own; an extended selection keeps
/// its other end.
pub proof fn law_carets_go_to_targets(
    selections: Seq<EditorSelection>,
    targets: Seq<usize>,
    i: int,
)
    requires
        0 <= i < selections.len() == targets.len(),
    ensures
        ({
            let moved = motion::all_moved_to(selections, targets, false)[i];
            let extended = motion::all_moved_to(selections, targets, true)[i];
            &&& moved.range.start == moved.range.end == targets[i]
            &&& caret_of(extended) == targets[i]
            &&& other_end(extended) == other_end(selections[i])
        }),
{
}

/// A completion replaces before each caret the same text as before the primary one.
pub proof fn law_completed_at_each_caret(
    t: Seq<u8>,
    selections: Seq<EditorSelection>,
    primary: (int, int),
    n: int,
    i: int,
)
    requires
        1 <= n <= selections.len(),
        0 <= i < n,
        motion::completion_ranges(t, selections, primary, n) is Some,
    ensures
        ({
            let ranges = motion::completion_ranges(t, selections, primary, n)->Some_0;
            &&& ranges.len() == n
            &&& ranges[0] == primary
            &&& t.subrange(ranges[i].0, ranges[i].1) == t.subrange(primary.0, primary.1)
            &&& i > 0 ==> ranges[i].1 == caret_of(selections[i]) && selections[i].range.start
                == selections[i].range.end && 0 <= ranges[i].0
        }),
    decreases n,
{
    let ranges = motion::completion_ranges(t, selections, primary, n)->Some_0;
    if n > 1 {
        let before = motion::completion_ranges(t, selections, primary, n - 1)->Some_0;
        if i < n - 1 {
            law_completed_at_each_caret(t, selections, primary, n - 1, i);
            assert(ranges[i] == before[i]);
        } else {
            law_completed_at_each_caret(t, selections, primary, n - 1, 0);
        }
        assert(ranges[0] == before[0]);
    }
}

} // verus!
