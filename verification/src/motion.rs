//! Moving, adding and typing at every cursor.

use crate::chars;
use crate::cursor;
use crate::cursor_edits;
use crate::cursor::EditorSelection;
use crate::edit;
use crate::line_operations as lines;
use crate::multi_cursor as cursors;
use crate::order;
use crate::pairs;
use crate::pairs::TrackedAutoClosingPair;
use crate::rope;
use crate::state;
use crate::state::InputState;
use crate::text;
use crate::text::Document;
use crate::transaction;
use std::ops::Range;
use vstd::prelude::*;
use vstd::string::*;
use vstd::utf8::*;

verus! {

/// How a caret moves.
#[derive(Debug, Copy, Clone, PartialEq, Eq, Structural)]
pub enum CursorMotion {
    /// One character on, or back.
    Horizontal { forward: bool },
    /// By rows, in the same byte column as far as the row reaches.
    Vertical { direction: isize },
    /// To the end of the row, or its start.
    LineBoundary { end: bool },
    /// To the end of the text, or its start.
    DocumentBoundary { end: bool },
}

/// The boundary after or before `o`, where there is one.
pub open spec fn step(t: Seq<u8>, o: int, forward: bool) -> int {
    if forward {
        if o >= t.len() {
            o
        } else {
            text::ceil_boundary(t, o + 1)
        }
    } else if o <= 0 || o > t.len() {
        o
    } else {
        text::floor_boundary(t, o - 1)
    }
}

/// The offset in the row `direction` rows away from that of `o`, in the same
/// byte column as far as that row reaches.
pub open spec fn adjacent_offset(t: Seq<u8>, o: int, direction: int) -> Option<int> {
    let row = text::row_at(t, o) + direction;
    if row < 0 || row >= text::line_count(t) {
        None
    } else {
        let start = text::line_start(t, row);
        Some(start + edit::min_int(text::column_at(t, o), text::line_end(t, row) - start))
    }
}

/// Where the caret of the selection moves to, where it can.
pub open spec fn target(t: Seq<u8>, selection: EditorSelection, motion: CursorMotion) -> Option<
    int,
> {
    let head = selection.spec_head() as int;
    match motion {
        CursorMotion::Horizontal { forward } => Some(step(t, head, forward)),
        CursorMotion::Vertical { direction } => adjacent_offset(t, head, direction as int),
        CursorMotion::LineBoundary { end } => Some(
            if end {
                text::line_end(t, text::row_at(t, head))
            } else {
                text::line_start(t, text::row_at(t, head))
            },
        ),
        CursorMotion::DocumentBoundary { end } => Some(
            if end {
                t.len() as int
            } else {
                0
            },
        ),
    }
}

/// The selection after the motion. A range that is not extended collapses to
/// the side of a horizontal motion; a caret that cannot move stays.
pub open spec fn moved(
    t: Seq<u8>,
    selection: EditorSelection,
    motion: CursorMotion,
    extend: bool,
) -> EditorSelection {
    match target(t, selection, motion) {
        None => if extend {
            cursor::spec_from_anchor_and_head(selection.spec_anchor(), selection.spec_head())
        } else {
            selection
        },
        Some(target) => if extend {
            cursor::spec_from_anchor_and_head(selection.spec_anchor(), target as usize)
        } else if selection.range.start != selection.range.end
            && motion is Horizontal {
            cursor::spec_caret(
                if motion->forward {
                    selection.range.end
                } else {
                    selection.range.start
                },
            )
        } else {
            cursor::spec_caret(target as usize)
        },
    }
}

pub open spec fn all_moved(
    t: Seq<u8>,
    selections: Seq<EditorSelection>,
    motion: CursorMotion,
    extend: bool,
) -> Seq<EditorSelection> {
    Seq::new(selections.len(), |i: int| moved(t, selections[i], motion, extend))
}

pub(crate) fn find_step(document: &Document, offset: usize, forward: bool) -> (next: usize)
    requires
        document.wf(),
    ensures
        next == step(document.bytes(), offset as int, forward),
{
    let bytes = document.as_bytes();
    if forward {
        if offset >= bytes.len() {
            offset
        } else {
            chars::next_boundary(bytes, offset)
        }
    } else if offset == 0 || offset > bytes.len() {
        offset
    } else {
        chars::previous_boundary(bytes, offset)
    }
}

fn offset_on_adjacent_line(document: &Document, offset: usize, direction: isize) -> (next: Option<
    usize,
>)
    requires
        document.wf(),
    ensures
        match next {
            Some(next) => adjacent_offset(document.bytes(), offset as int, direction as int) == Some(
                next as int,
            ) && next <= document.bytes().len(),
            None => adjacent_offset(document.bytes(), offset as int, direction as int) is None,
        },
{
    let point = document.offset_to_point(offset);
    let row: i128 = point.row as i128 + direction as i128;
    if row < 0 || row >= document.lines_len() as i128 {
        return None;
    }
    let target: usize = row as usize;
    let start: usize = document.line_start_offset(target);
    let end: usize = document.line_end_offset(target);
    let width: usize = end - start;
    let column: usize = if point.column <= width {
        point.column
    } else {
        width
    };
    Some(start + column)
}

fn find_target(document: &Document, selection: EditorSelection, motion: CursorMotion) -> (found:
    Option<usize>)
    requires
        document.wf(),
    ensures
        match found {
            Some(offset) => target(document.bytes(), selection, motion) == Some(offset as int),
            None => target(document.bytes(), selection, motion) is None,
        },
{
    let head: usize = selection.head();
    match motion {
        CursorMotion::Horizontal { forward } => Some(find_step(document, head, forward)),
        CursorMotion::Vertical { direction } => offset_on_adjacent_line(document, head, direction),
        CursorMotion::LineBoundary { end } => {
            let row: usize = document.offset_to_point(head).row;
            if end {
                Some(document.line_end_offset(row))
            } else {
                Some(document.line_start_offset(row))
            }
        },
        CursorMotion::DocumentBoundary { end } => {
            if end {
                Some(document.len())
            } else {
                Some(0)
            }
        },
    }
}

fn move_selection(
    document: &Document,
    selection: EditorSelection,
    motion: CursorMotion,
    extend: bool,
) -> (result: EditorSelection)
    requires
        document.wf(),
    ensures
        result == moved(document.bytes(), selection, motion, extend),
{
    let found = find_target(document, selection, motion);
    match found {
        None => {
            if extend {
                EditorSelection::from_anchor_and_head(selection.anchor(), selection.head())
            } else {
                selection
            }
        },
        Some(offset) => {
            if extend {
                return EditorSelection::from_anchor_and_head(selection.anchor(), offset);
            }
            if !selection.is_empty() {
                match motion {
                    CursorMotion::Horizontal { forward } => {
                        return EditorSelection::caret(
                            if forward {
                                selection.range.end
                            } else {
                                selection.range.start
                            },
                        );
                    },
                    _ => {},
                }
            }
            EditorSelection::caret(offset)
        },
    }
}

/// The selections with their carets at the targets.
pub open spec fn all_moved_to(
    selections: Seq<EditorSelection>,
    targets: Seq<usize>,
    extend: bool,
) -> Seq<EditorSelection> {
    Seq::new(
        selections.len(),
        |i: int|
            if extend {
                cursor::spec_from_anchor_and_head(selections[i].spec_anchor(), targets[i])
            } else {
                cursor::spec_caret(targets[i])
            },
    )
}

/// The carets `direction` rows away from the first `n` selections, where there are any.
pub open spec fn adjacent_carets(
    t: Seq<u8>,
    selections: Seq<EditorSelection>,
    direction: int,
    n: int,
) -> Seq<EditorSelection>
    decreases n,
{
    if n <= 0 {
        Seq::empty()
    } else {
        let before = adjacent_carets(t, selections, direction, n - 1);
        match adjacent_offset(t, selections[n - 1].spec_head() as int, direction) {
            Some(offset) => before.push(cursor::spec_caret(offset as usize)),
            None => before,
        }
    }
}

/// `carets` with the ends of the rows from `row` up to `end`, as far as there
/// is room.
pub open spec fn with_row_ends(
    t: Seq<u8>,
    carets: Seq<EditorSelection>,
    row: int,
    end: int,
) -> Seq<EditorSelection>
    decreases end - row,
{
    if row >= end || carets.len() >= cursors::MAX_EDITOR_SELECTIONS {
        carets
    } else {
        with_row_ends(
            t,
            carets.push(cursor::spec_caret(text::line_end(t, row) as usize)),
            row + 1,
            end,
        )
    }
}

/// The carets at the ends of the rows of the first `n` selections that are no
/// carets. A last row of which nothing is selected has none.
pub open spec fn line_end_carets(t: Seq<u8>, selections: Seq<EditorSelection>, n: int) -> Seq<
    EditorSelection,
>
    decreases n,
{
    if n <= 0 {
        Seq::empty()
    } else {
        let before = line_end_carets(t, selections, n - 1);
        let range = selections[n - 1].range;
        if range.start == range.end || before.len() >= cursors::MAX_EDITOR_SELECTIONS {
            before
        } else {
            let rows = with_row_ends(
                t,
                before,
                text::row_at(t, range.start as int),
                text::row_at(t, range.end as int),
            );
            if rows.len() < cursors::MAX_EDITOR_SELECTIONS && text::column_at(t, range.end as int)
                > 0 {
                rows.push(cursor::spec_caret(range.end))
            } else {
                rows
            }
        }
    }
}

impl InputState {
    /// Moves every caret.
    pub fn move_all_cursors(&mut self, motion: CursorMotion, extend: bool)
        requires
            old(self).wf(),
        ensures
            final(self).all_selections() == cursors::normalized(
                old(self).bytes(),
                all_moved(old(self).bytes(), old(self).all_selections(), motion, extend),
                old(self).primary(),
            ),
            final(self).occurrence_session is None,
            final(self).snippet_session is None,
            final(self).wf(),
            state::keeps_text(*old(self), *final(self), true),
    {
        let document = self.document();
        let current = self.selections();
        let mut next: Vec<EditorSelection> = Vec::new();
        let ghost expected = all_moved(self.bytes(), self.all_selections(), motion, extend);
        while next.len() < current.len()
            invariant
                *self == *old(self),
                document.wf(),
                document.bytes() == self.bytes(),
                current@ == self.all_selections(),
                expected == all_moved(self.bytes(), self.all_selections(), motion, extend),
                next@.len() <= current@.len(),
                forall|k: int| 0 <= k < next@.len() ==> #[trigger] next@[k] == expected[k],
            decreases current.len() - next.len(),
        {
            next.push(move_selection(&document, current[next.len()], motion, extend));
        }
        assert(next@ =~= expected);
        self.set_editor_selections(next);
    }

    /// Moves every caret to its own target, such as the end of a word.
    pub fn move_all_cursors_to(&mut self, targets: &Vec<usize>, extend: bool)
        requires
            old(self).wf(),
            targets@.len() == old(self).all_selections().len(),
        ensures
            final(self).all_selections() == cursors::normalized(
                old(self).bytes(),
                all_moved_to(old(self).all_selections(), targets@, extend),
                old(self).primary(),
            ),
            final(self).occurrence_session is None,
            final(self).snippet_session is None,
            final(self).wf(),
            state::keeps_text(*old(self), *final(self), true),
    {
        let current = self.selections();
        let mut next: Vec<EditorSelection> = Vec::new();
        let ghost expected = all_moved_to(current@, targets@, extend);
        while next.len() < current.len()
            invariant
                *self == *old(self),
                targets@.len() == current@.len(),
                expected == all_moved_to(current@, targets@, extend),
                next@.len() <= current@.len(),
                forall|k: int| 0 <= k < next@.len() ==> #[trigger] next@[k] == expected[k],
            decreases current.len() - next.len(),
        {
            let i: usize = next.len();
            if extend {
                next.push(
                    EditorSelection::from_anchor_and_head(current[i].anchor(), targets[i]),
                );
            } else {
                next.push(EditorSelection::caret(targets[i]));
            }
        }
        assert(next@ =~= expected);
        self.set_editor_selections(next);
    }

    /// Add a collapsed secondary caret `direction` rows away from each current
    /// selection, preserving the primary selection.
    pub(crate) fn add_cursors_vertically(&mut self, direction: isize)
        requires
            old(self).wf(),
        ensures
            vertical_cursors(*old(self), *final(self), direction as int),
            final(self).wf(),
    {
        if self.mode.is_single_line() || direction == 0 {
            return;
        }
        let document = self.document();
        let current = self.selections();
        let mut next = self.selections();
        let ghost t = self.bytes();
        let ghost cv = current@;
        let mut n: usize = 0;
        assert(next@ =~= cv + adjacent_carets(t, cv, direction as int, 0));
        while n < current.len()
            invariant
                n <= current@.len(),
                *self == *old(self),
                document.wf(),
                document.bytes() == t,
                current@ == cv,
                next@ == cv + adjacent_carets(t, cv, direction as int, n as int),
            decreases current.len() - n,
        {
            let ghost held = next@;
            match offset_on_adjacent_line(&document, current[n].head(), direction) {
                Some(offset) => {
                    next.push(EditorSelection::caret(offset));
                    assert(next@ =~= cv + adjacent_carets(t, cv, direction as int, n + 1));
                },
                None => {
                    assert(next@ =~= cv + adjacent_carets(t, cv, direction as int, n + 1));
                },
            }
            n = n + 1;
        }
        if next.len() == current.len() {
            return;
        }
        self.set_editor_selections(next);
    }

    /// Add a collapsed secondary caret on the logical line above each current
    /// selection, preserving the primary selection.
    pub fn add_cursor_above(&mut self)
        requires
            old(self).wf(),
        ensures
            vertical_cursors(*old(self), *final(self), -1),
            final(self).wf(),
    {
        self.add_cursors_vertically(-1);
    }

    /// Add a collapsed secondary caret on the logical line below each current
    /// selection, preserving the primary selection.
    pub fn add_cursor_below(&mut self)
        requires
            old(self).wf(),
        ensures
            vertical_cursors(*old(self), *final(self), 1),
            final(self).wf(),
    {
        self.add_cursors_vertically(1);
    }

    /// Add a collapsed secondary caret at a UTF-8 byte offset. Invalid offsets
    /// are clipped to a scalar boundary and duplicate/overlapping selections
    /// are normalized away.
    pub fn add_cursor_at_offset(&mut self, offset: usize)
        requires
            old(self).wf(),
        ensures
            final(self).all_selections() == cursors::normalized(
                old(self).bytes(),
                old(self).all_selections().push(
                    cursor::spec_caret(
                        text::floor_boundary(old(self).bytes(), offset as int) as usize,
                    ),
                ),
                old(self).primary(),
            ),
            final(self).occurrence_session is None,
            final(self).snippet_session is None,
            final(self).wf(),
            state::keeps_text(*old(self), *final(self), true),
    {
        let document = self.document();
        let at: usize = document.clip_left(offset);
        let mut selections = self.selections();
        selections.push(EditorSelection::caret(at));
        self.set_editor_selections(selections);
    }

    /// Removes the secondary caret at the offset, or adds one there. Nothing
    /// happens where the primary selection is a caret at the offset.
    pub fn toggle_cursor_at_offset(&mut self, offset: usize)
        requires
            old(self).wf(),
        ensures
            ({
                let t = old(self).bytes();
                let at = text::floor_boundary(t, offset as int);
                let current = old(self).all_selections();
                match secondary_caret(current, at, 1) {
                    Some(i) => final(self).all_selections() == current.remove(i)
                        && final(self).occurrence_session is None && final(self).snippet_session
                        == old(self).snippet_session && state::same_document(
                        *old(self),
                        *final(self),
                    ),
                    None => if current[0].range.start == current[0].range.end
                        && current[0].spec_head() == at {
                        *final(self) == *old(self)
                    } else {
                        final(self).all_selections() == cursors::normalized(
                            t,
                            current.push(cursor::spec_caret(at as usize)),
                            current[0],
                        ) && final(self).occurrence_session is None && final(self).snippet_session
                            is None && state::keeps_text(*old(self), *final(self), true)
                    },
                }
            }),
            final(self).wf(),
    {
        let document = self.document();
        let at: usize = document.clip_left(offset);
        let ghost current = self.all_selections();
        assert(current[0] == self.primary());
        let mut i: usize = 0;
        while i < self.secondary_selections.len()
            invariant
                i <= self.secondary_selections@.len(),
                *self == *old(self),
                self.wf(),
                current == self.all_selections(),
                at == text::floor_boundary(self.bytes(), offset as int),
                secondary_caret(current, at as int, 1) == secondary_caret(
                    current,
                    at as int,
                    i + 1,
                ),
            decreases self.secondary_selections.len() - i,
        {
            assert(current[i + 1] == self.secondary_selections@[i as int]);
            if self.secondary_selections[i].is_empty() && self.secondary_selections[i].head()
                == at {
                self.secondary_selections.remove(i);
                self.occurrence_session = None;
                proof {
                    assert(self.all_selections() =~= current.remove(i + 1));
                    let all = self.all_selections();
                    assert forall|k: int| #![trigger all[k]] 0 <= k < all.len() implies cursors::is_on_boundaries(
                        self.bytes(),
                        all[k],
                    ) by {
                        let from = if k < i + 1 {
                            k
                        } else {
                            k + 1
                        };
                        assert(all[k] == current[from]);
                        assert(cursors::is_on_boundaries(old(self).bytes(), old(self).all_selections()[from]));
                    }
                }
                return;
            }
            i = i + 1;
        }
        let primary = self.primary_editor_selection();
        if primary.is_empty() && primary.head() == at {
            return;
        }
        proof {
            text::lemma_floor_boundary(self.bytes(), offset as int);
            lemma_floor_fixed(self.bytes(), offset as int);
        }
        self.add_cursor_at_offset(at);
    }

    /// Replace each non-empty selection with one caret per selected logical
    /// line. A final line that is selected only at column zero is excluded.
    pub fn add_cursors_to_line_ends(&mut self) -> (changed: bool)
        requires
            old(self).wf(),
        ensures
            ({
                let t = old(self).bytes();
                let current = old(self).all_selections();
                let next = line_end_carets(t, current, current.len() as int);
                &&& changed == (old(self).mode.spec_is_multi_line() && next.len() > 0 && next
                    != current)
                &&& !changed ==> *final(self) == *old(self)
                &&& changed ==> final(self).all_selections() == cursors::normalized(
                    t,
                    next,
                    current[0],
                ) && final(self).occurrence_session is None && final(self).snippet_session is None
            }),
            final(self).wf(),
            state::keeps_text(*old(self), *final(self), changed),
    {
        if self.mode.is_single_line() {
            return false;
        }
        let document = self.document();
        let current = self.selections();
        let ghost t = self.bytes();
        let mut next: Vec<EditorSelection> = Vec::new();
        let mut n: usize = 0;
        assert(next@ =~= line_end_carets(t, current@, 0));
        while n < current.len()
            invariant
                n <= current@.len(),
                *self == *old(self),
                document.wf(),
                document.bytes() == t,
                t == self.bytes(),
                next@ == line_end_carets(t, current@, n as int),
            decreases current.len() - n,
        {
            let selection = current[n];
            if !selection.is_empty() && next.len() < cursors::MAX_EDITOR_SELECTIONS {
                let ghost held = next@;
                let start: usize = document.offset_to_point(selection.range.start).row;
                let end = document.offset_to_point(selection.range.end);
                let mut row: usize = start;
                while row < end.row && next.len() < cursors::MAX_EDITOR_SELECTIONS
                    invariant
                        document.wf(),
                        document.bytes() == t,
                        with_row_ends(t, held, start as int, end.row as int) == with_row_ends(
                            t,
                            next@,
                            row as int,
                            end.row as int,
                        ),
                    decreases end.row - row,
                {
                    next.push(EditorSelection::caret(document.line_end_offset(row)));
                    row = row + 1;
                }
                if next.len() < cursors::MAX_EDITOR_SELECTIONS && end.column > 0 {
                    next.push(EditorSelection::caret(selection.range.end));
                }
            }
            n = n + 1;
        }
        assert(self.all_selections()[0] == self.primary());
        if next.len() == 0 || cursors::same_selections(&next, &current) {
            return false;
        }
        self.set_editor_selections(next);
        true
    }
}

proof fn lemma_floor_fixed(t: Seq<u8>, o: int)
    requires
        0 <= o,
    ensures
        text::floor_boundary(t, text::floor_boundary(t, o)) == text::floor_boundary(t, o),
{
    text::lemma_floor_boundary(t, o);
}

/// Index from `from` on of the first selection that is a caret at `at`.
pub open spec fn secondary_caret(selections: Seq<EditorSelection>, at: int, from: int) -> Option<int>
    decreases selections.len() - from,
{
    if from < 0 || from >= selections.len() {
        None
    } else if selections[from].range.start == selections[from].range.end
        && selections[from].spec_head() == at {
        Some(from)
    } else {
        secondary_caret(selections, at, from + 1)
    }
}

/// What adding carets in adjacent rows does to the selections.
pub open spec fn vertical_cursors(before: InputState, after: InputState, direction: int) -> bool {
    let current = before.all_selections();
    let more = adjacent_carets(before.bytes(), current, direction, current.len() as int);
    if !before.mode.spec_is_multi_line() || direction == 0 || more.len() == 0 {
        after == before
    } else {
        after.all_selections() == cursors::normalized(
            before.bytes(),
            current + more,
            before.primary(),
        ) && after.occurrence_session is None && after.snippet_session is None
            && state::keeps_text(before, after, true)
    }
}

/// The owners of one edit per selection.
pub open spec fn own_indices(n: nat) -> Seq<Option<usize>> {
    Seq::new(n, |i: int| Some(i as usize))
}

/// Where the primary selection owns an edit, a caret is left behind it.
pub proof fn lemma_carets_behind(
    edits: Seq<(int, int, Seq<u8>)>,
    owners: Seq<Option<usize>>,
    n: int,
)
    requires
        edits.len() == owners.len(),
        n >= 1,
        exists|k: int| 0 <= k < owners.len() && #[trigger] owners[k] == Some(0usize),
    ensures
        transaction::carets_behind(
            edit::sorted_edits(edits),
            transaction::sorted_owners(edits, owners),
            n,
        ).len() > 0,
    decreases n,
{
    let sorted = edit::sorted_edits(edits);
    let placed = transaction::sorted_owners(edits, owners);
    if n > 1 {
        lemma_carets_behind(edits, owners, n - 1);
    } else {
        let keys = edit::edit_keys(edits);
        let order = order::sorted_order(keys, edits.len() as int);
        order::lemma_sorted_order(keys, edits.len() as int);
        let k = choose|k: int| 0 <= k < owners.len() && #[trigger] owners[k] == Some(0usize);
        assert(order.contains(k));
        let p = choose|p: int| 0 <= p < order.len() && order[p] == k;
        assert(placed[p] == Some(0usize));
        lemma_owned(placed, 0, p);
        assert(transaction::carets_behind(sorted, placed, 0).len() == 0);
    }
}

proof fn lemma_owned(owners: Seq<Option<usize>>, from: int, p: int)
    requires
        0 <= from <= p < owners.len(),
        owners[p] == Some(0usize),
    ensures
        transaction::owned_edit(owners, 0, from) is Some,
    decreases p - from,
{
    if from < p {
        lemma_owned(owners, from + 1, p);
    }
}

/// One edit for each selection.
pub open spec fn selection_edits(
    ranges: Seq<(int, int)>,
    texts: Seq<Seq<u8>>,
) -> Seq<(int, int, Seq<u8>)> {
    Seq::new(ranges.len(), |i: int| (ranges[i].0, ranges[i].1, texts[i]))
}

/// What replacing one range per selection does, where it can be done.
pub open spec fn replaced_ranges(
    before: InputState,
    after: InputState,
    edits: Seq<(int, int, Seq<u8>)>,
    owners: Seq<Option<usize>>,
    changed: bool,
) -> bool {
    let sorted = edit::sorted_edits(edits);
    &&& changed == transaction::are_applicable(before.bytes(), sorted)
    &&& !changed ==> after == before
    &&& changed ==> cursor_edits::is_cursor_transaction(
        before,
        after,
        sorted,
        transaction::carets_behind(
            sorted,
            transaction::sorted_owners(edits, owners),
            before.all_selections().len() as int,
        ),
    )
}

pub open spec fn texts_view(texts: Seq<String>) -> Seq<Seq<u8>> {
    Seq::new(texts.len(), |i: int| encode_utf8(texts[i]@))
}

/// The ranges that a completion replaces: that of the primary caret, and the
/// same prefix in front of each other caret.
pub open spec fn completion_ranges(
    t: Seq<u8>,
    selections: Seq<EditorSelection>,
    primary: (int, int),
    n: int,
) -> Option<Seq<(int, int)>>
    decreases n,
{
    if n <= 1 {
        Some(seq![primary])
    } else {
        match completion_ranges(t, selections, primary, n - 1) {
            None => None,
            Some(before) => {
                let selection = selections[n - 1];
                let head = selection.spec_head() as int;
                let start = head - (primary.1 - primary.0);
                if selection.range.start != selection.range.end || start < 0
                    || !text::is_boundary(t, start) || t.subrange(start, head) != t.subrange(
                    primary.0,
                    primary.1,
                ) {
                    None
                } else {
                    Some(before.push((start, head)))
                }
            },
        }
    }
}

/// What a deletion command removes at a caret.
#[derive(Debug, Copy, Clone, PartialEq, Eq, Structural)]
pub enum MultiCursorDelete {
    Backward,
    Forward,
    ToLineStart,
    ToLineEnd,
}

/// The range that the command removes for the selection.
pub open spec fn deletion(
    t: Seq<u8>,
    selection: EditorSelection,
    operation: MultiCursorDelete,
    watched: Seq<TrackedAutoClosingPair>,
) -> (int, int) {
    let caret = selection.spec_head() as int;
    if selection.range.start != selection.range.end {
        (selection.range.start as int, selection.range.end as int)
    } else {
        match operation {
            MultiCursorDelete::Backward => match pairs::pair_around(t, caret, watched, 0) {
                Some(i) => (watched[i].open.start as int, watched[i].close.end as int),
                None => (step(t, caret, false), caret),
            },
            MultiCursorDelete::Forward => (caret, step(t, caret, true)),
            MultiCursorDelete::ToLineStart => {
                let start = text::line_start(t, text::row_at(t, caret));
                (
                    if start == caret && start > 0 {
                        start - 1
                    } else {
                        start
                    },
                    caret,
                )
            },
            MultiCursorDelete::ToLineEnd => {
                let end = text::line_end(t, text::row_at(t, caret));
                (
                    caret,
                    if end == caret && end < t.len() {
                        end + 1
                    } else {
                        end
                    },
                )
            },
        }
    }
}

impl InputState {
    /// Replaces one range for each selection, as one step of the history, and
    /// leaves a caret behind each replacement. Returns whether it was done:
    /// there has to be one range and one text for each selection, and no two
    /// ranges may overlap.
    pub fn replace_selection_ranges(
        &mut self,
        ranges: Vec<Range<usize>>,
        texts: Vec<String>,
    ) -> (changed: bool)
        requires
            old(self).wf(),
            old(self).text_version < usize::MAX,
        ensures
            if ranges@.len() != old(self).all_selections().len() || texts@.len() != ranges@.len() {
                !changed && *final(self) == *old(self)
            } else {
                replaced_ranges(
                    *old(self),
                    *final(self),
                    selection_edits(text::ranges_view(ranges@), texts_view(texts@)),
                    own_indices(ranges@.len()),
                    changed,
                )
            },
            final(self).wf(),
    {
        if ranges.len() != self.selections().len() || texts.len() != ranges.len() {
            return false;
        }
        let mut edits: Vec<(Range<usize>, String)> = Vec::new();
        let mut owners: Vec<Option<usize>> = Vec::new();
        let ghost expected = selection_edits(text::ranges_view(ranges@), texts_view(texts@));
        while edits.len() < ranges.len()
            invariant
                edits@.len() <= ranges@.len(),
                texts@.len() == ranges@.len(),
                owners@.len() == edits@.len(),
                expected == selection_edits(text::ranges_view(ranges@), texts_view(texts@)),
                forall|k: int|
                    0 <= k < edits@.len() ==> edit::edit_view(#[trigger] edits@[k]) == expected[k],
                forall|k: int|
                    0 <= k < owners@.len() ==> #[trigger] owners@[k] == Some(k as usize),
            decreases ranges.len() - edits.len(),
        {
            let i: usize = edits.len();
            edits.push((ranges[i].start..ranges[i].end, texts[i].clone()));
            owners.push(Some(i));
        }
        assert(edit::edits_view(edits@) =~= expected);
        assert(owners@ =~= own_indices(ranges@.len()));
        proof {
            assert(owners@[0] == Some(0usize));
            lemma_carets_behind(
                edit::edits_view(edits@),
                owners@,
                self.all_selections().len() as int,
            );
        }
        self.apply_cursor_edits(edits, owners).is_some()
    }

    /// Replaces every selection by the text, as one step of the history, and
    /// leaves a caret behind each.
    pub fn replace_all_selections(&mut self, new_text: &str) -> (changed: bool)
        requires
            old(self).wf(),
            old(self).text_version < usize::MAX,
        ensures
            ({
                let current = old(self).all_selections();
                replaced_ranges(
                    *old(self),
                    *final(self),
                    Seq::new(
                        current.len(),
                        |i: int|
                            (
                                current[i].range.start as int,
                                current[i].range.end as int,
                                encode_utf8(new_text@),
                            ),
                    ),
                    own_indices(current.len()),
                    changed,
                )
            }),
            final(self).wf(),
    {
        let current = self.selections();
        let mut ranges: Vec<Range<usize>> = Vec::new();
        let mut texts: Vec<String> = Vec::new();
        while ranges.len() < current.len()
            invariant
                ranges@.len() <= current@.len(),
                texts@.len() == ranges@.len(),
                forall|k: int|
                    0 <= k < ranges@.len() ==> (#[trigger] ranges@[k]).start == current@[k].range.start
                        && ranges@[k].end == current@[k].range.end,
                forall|k: int| 0 <= k < texts@.len() ==> (#[trigger] texts@[k])@ == new_text@,
            decreases current.len() - ranges.len(),
        {
            let i: usize = ranges.len();
            ranges.push(current[i].range.start..current[i].range.end);
            texts.push(new_text.to_owned());
        }
        proof {
            assert(selection_edits(text::ranges_view(ranges@), texts_view(texts@)) =~= Seq::new(
                current@.len(),
                |i: int|
                    (
                        current@[i].range.start as int,
                        current@[i].range.end as int,
                        encode_utf8(new_text@),
                    ),
            ));
        }
        self.replace_selection_ranges(ranges, texts)
    }

    /// Map a completion's primary replacement range onto every collapsed
    /// caret when the same prefix appears immediately before each caret.
    pub fn multi_cursor_completion_ranges(&self, primary_range: Range<usize>) -> (ranges: Option<
        Vec<Range<usize>>,
    >)
        requires
            self.wf(),
            primary_range.start <= primary_range.end <= self.bytes().len() ==> text::is_boundary(
                self.bytes(),
                primary_range.start as int,
            ) && text::is_boundary(self.bytes(), primary_range.end as int),
        ensures
            ({
                let t = self.bytes();
                let current = self.all_selections();
                let primary = (primary_range.start as int, primary_range.end as int);
                let expected = if current.len() > 1 && !(primary_range.start <= primary_range.end
                    <= t.len()) {
                    None
                } else {
                    completion_ranges(t, current, primary, current.len() as int)
                };
                match ranges {
                    Some(ranges) => expected == Some(text::ranges_view(ranges@)),
                    None => expected is None,
                }
            }),
    {
        let current = self.selections();
        let ghost t = self.bytes();
        let ghost primary = (primary_range.start as int, primary_range.end as int);
        let first = primary_range.start..primary_range.end;
        let mut ranges: Vec<Range<usize>> = Vec::new();
        ranges.push(first);
        assert(text::ranges_view(ranges@) =~= seq![primary]);
        if current.len() == 1 {
            return Some(ranges);
        }
        let document = self.document();
        if primary_range.start > primary_range.end || primary_range.end > document.len() {
            return None;
        }
        let prefix = document.slice(primary_range.start, primary_range.end);
        let size: usize = primary_range.end - primary_range.start;
        let mut n: usize = 1;
        while n < current.len()
            invariant
                1 <= n <= current@.len(),
                self.wf(),
                document.wf(),
                document.bytes() == t,
                t == self.bytes(),
                current@ == self.all_selections(),
                current@.len() > 1,
                primary == (primary_range.start as int, primary_range.end as int),
                primary_range.start <= primary_range.end <= t.len(),
                encode_utf8(prefix@) == t.subrange(primary.0, primary.1),
                size == primary.1 - primary.0,
                completion_ranges(t, current@, primary, n as int) == Some(text::ranges_view(ranges@)),
            decreases current.len() - n,
        {
            let selection = current[n];
            assert(self.all_selections()[n as int] == selection);
            let head: usize = selection.head();
            if !selection.is_empty() || head < size || !document.is_char_boundary(head - size) {
                proof {
                    lemma_completion_stops(t, current@, primary, n + 1, current@.len() as int);
                }
                return None;
            }
            let start: usize = head - size;
            let part = document.slice(start, head);
            if !lines::equal_bytes(part.as_str().as_bytes(), prefix.as_str().as_bytes()) {
                proof {
                    lemma_completion_stops(t, current@, primary, n + 1, current@.len() as int);
                }
                return None;
            }
            let ghost held = ranges@;
            ranges.push(start..head);
            assert(text::ranges_view(ranges@) =~= text::ranges_view(held).push((start as int, head as int)));
            n = n + 1;
        }
        Some(ranges)
    }

    /// Apply one resolved completion to every mapped caret while applying the
    /// server's additional edits exactly once. All edits share one undo step.
    pub fn apply_multi_cursor_completion(
        &mut self,
        ranges: Vec<Range<usize>>,
        new_text: &str,
        additional_edits: Vec<(Range<usize>, String)>,
    ) -> (changed: bool)
        requires
            old(self).wf(),
            old(self).text_version < usize::MAX,
        ensures
            if ranges@.len() != old(self).all_selections().len() {
                !changed && *final(self) == *old(self)
            } else {
                replaced_ranges(
                    *old(self),
                    *final(self),
                    completion_edits(
                        text::ranges_view(ranges@),
                        encode_utf8(new_text@),
                        edit::edits_view(additional_edits@),
                    ),
                    completion_owners(ranges@.len(), additional_edits@.len()),
                    changed,
                )
            },
            final(self).wf(),
    {
        if ranges.len() != self.selections().len() {
            return false;
        }
        let mut edits: Vec<(Range<usize>, String)> = Vec::new();
        let mut owners: Vec<Option<usize>> = Vec::new();
        let ghost more = edit::edits_view(additional_edits@);
        let ghost expected = completion_edits(
            text::ranges_view(ranges@),
            encode_utf8(new_text@),
            more,
        );
        let ghost owning = completion_owners(ranges@.len(), additional_edits@.len());
        while edits.len() < ranges.len()
            invariant
                edits@.len() <= ranges@.len(),
                owners@.len() == edits@.len(),
                expected == completion_edits(
                    text::ranges_view(ranges@),
                    encode_utf8(new_text@),
                    more,
                ),
                owning == completion_owners(ranges@.len(), additional_edits@.len()),
                forall|k: int|
                    0 <= k < edits@.len() ==> edit::edit_view(#[trigger] edits@[k]) == expected[k],
                forall|k: int| 0 <= k < owners@.len() ==> #[trigger] owners@[k] == owning[k],
            decreases ranges.len() - edits.len(),
        {
            let i: usize = edits.len();
            edits.push((ranges[i].start..ranges[i].end, new_text.to_owned()));
            owners.push(Some(i));
        }
        let mut j: usize = 0;
        while j < additional_edits.len()
            invariant
                j <= additional_edits@.len(),
                edits@.len() == ranges@.len() + j,
                owners@.len() == edits@.len(),
                more == edit::edits_view(additional_edits@),
                expected == completion_edits(
                    text::ranges_view(ranges@),
                    encode_utf8(new_text@),
                    more,
                ),
                owning == completion_owners(ranges@.len(), additional_edits@.len()),
                forall|k: int|
                    0 <= k < edits@.len() ==> edit::edit_view(#[trigger] edits@[k]) == expected[k],
                forall|k: int| 0 <= k < owners@.len() ==> #[trigger] owners@[k] == owning[k],
            decreases additional_edits.len() - j,
        {
            let extra = &additional_edits[j];
            edits.push((extra.0.start..extra.0.end, extra.1.clone()));
            owners.push(None);
            j = j + 1;
        }
        assert(edit::edits_view(edits@) =~= expected);
        assert(owners@ =~= owning);
        proof {
            assert(owners@[0] == Some(0usize));
            lemma_carets_behind(
                edit::edits_view(edits@),
                owners@,
                self.all_selections().len() as int,
            );
        }
        self.apply_cursor_edits(edits, owners).is_some()
    }

    fn find_deletion(
        &self,
        document: &Document,
        text: &str,
        selection: EditorSelection,
        operation: MultiCursorDelete,
        watched: &[TrackedAutoClosingPair],
    ) -> (range: Range<usize>)
        requires
            document.wf(),
            document.bytes() == encode_utf8(text@),
            cursors::is_on_boundaries(document.bytes(), selection),
        ensures
            (range.start as int, range.end as int) == deletion(
                document.bytes(),
                selection,
                operation,
                watched@,
            ),
    {
        if !selection.is_empty() {
            return selection.range.start..selection.range.end;
        }
        let caret: usize = selection.head();
        proof {
            document.lemma_wf();
        }
        match operation {
            MultiCursorDelete::Backward => {
                match pairs::paired_backspace_range(text, caret, watched) {
                    Some(range) => range,
                    None => find_step(document, caret, false)..caret,
                }
            },
            MultiCursorDelete::Forward => caret..find_step(document, caret, true),
            MultiCursorDelete::ToLineStart => {
                let row: usize = document.offset_to_point(caret).row;
                let start: usize = document.line_start_offset(row);
                if start == caret && start > 0 {
                    start - 1..caret
                } else {
                    start..caret
                }
            },
            MultiCursorDelete::ToLineEnd => {
                let row: usize = document.offset_to_point(caret).row;
                let end: usize = document.line_end_offset(row);
                if end == caret && end < document.len() {
                    caret..end + 1
                } else {
                    caret..end
                }
            },
        }
    }

    /// Deletes at every selection: what is selected, or what the command
    /// removes at a caret. `watched` are the pairs that were closed
    /// automatically. Returns whether it was done.
    pub fn delete_at_all_selections(
        &mut self,
        operation: MultiCursorDelete,
        watched: &[TrackedAutoClosingPair],
    ) -> (changed: bool)
        requires
            old(self).wf(),
            old(self).text_version < usize::MAX,
        ensures
            ({
                let current = old(self).all_selections();
                replaced_ranges(
                    *old(self),
                    *final(self),
                    Seq::new(
                        current.len(),
                        |i: int|
                            {
                                let range = deletion(
                                    old(self).bytes(),
                                    current[i],
                                    operation,
                                    watched@,
                                );
                                (range.0, range.1, Seq::<u8>::empty())
                            },
                    ),
                    own_indices(current.len()),
                    changed,
                )
            }),
            final(self).wf(),
    {
        let text = rope::rope_to_string(&self.text);
        let document = self.document();
        let current = self.selections();
        let ghost t = self.bytes();
        let mut ranges: Vec<Range<usize>> = Vec::new();
        let mut texts: Vec<String> = Vec::new();
        assert(encode_utf8(Seq::<char>::empty()) =~= Seq::<u8>::empty());
        while ranges.len() < current.len()
            invariant
                *self == *old(self),
                self.wf(),
                document.wf(),
                document.bytes() == t,
                t == self.bytes(),
                t == encode_utf8(text@),
                current@ == self.all_selections(),
                ranges@.len() <= current@.len(),
                texts@.len() == ranges@.len(),
                encode_utf8(Seq::<char>::empty()) == Seq::<u8>::empty(),
                forall|k: int|
                    0 <= k < ranges@.len() ==> ((#[trigger] ranges@[k]).start as int, ranges@[k].end as int)
                        == deletion(t, current@[k], operation, watched@),
                forall|k: int|
                    0 <= k < texts@.len() ==> encode_utf8((#[trigger] texts@[k])@)
                        == Seq::<u8>::empty(),
            decreases current.len() - ranges.len(),
        {
            let i: usize = ranges.len();
            assert(self.all_selections()[i as int] == current@[i as int]);
            ranges.push(
                self.find_deletion(&document, text.as_str(), current[i], operation, watched),
            );
            texts.push(String::new());
        }
        proof {
            assert(selection_edits(text::ranges_view(ranges@), texts_view(texts@)) =~= Seq::new(
                current@.len(),
                |i: int|
                    {
                        let range = deletion(t, current@[i], operation, watched@);
                        (range.0, range.1, Seq::<u8>::empty())
                    },
            ));
        }
        self.replace_selection_ranges(ranges, texts)
    }
}

/// The edits of a completion: the same text at each caret, and the additional edits.
pub open spec fn completion_edits(
    ranges: Seq<(int, int)>,
    text: Seq<u8>,
    more: Seq<(int, int, Seq<u8>)>,
) -> Seq<(int, int, Seq<u8>)> {
    Seq::new(ranges.len(), |i: int| (ranges[i].0, ranges[i].1, text)) + more
}

/// The edits at the carets belong to them, the additional ones to none.
pub open spec fn completion_owners(n: nat, more: nat) -> Seq<Option<usize>> {
    own_indices(n) + Seq::new(more, |i: int| None)
}

proof fn lemma_completion_stops(
    t: Seq<u8>,
    selections: Seq<EditorSelection>,
    primary: (int, int),
    a: int,
    b: int,
)
    requires
        1 < a <= b,
        completion_ranges(t, selections, primary, a) is None,
    ensures
        completion_ranges(t, selections, primary, b) is None,
    decreases b - a,
{
    if a < b {
        lemma_completion_stops(t, selections, primary, a, b - 1);
    }
}

/// The selections in the order of the text.
pub open spec fn in_text_order(selections: Seq<EditorSelection>) -> Seq<EditorSelection> {
    let keys = Seq::new(
        selections.len(),
        |i: int| (selections[i].range.start as int, selections[i].range.end as int),
    );
    let order = order::sorted_order(keys, selections.len() as int);
    Seq::new(selections.len(), |i: int| selections[order[i]])
}

/// What the first `n` selections hold, one below the other; nothing yet where
/// all of them are carets.
pub open spec fn joined_selections(t: Seq<u8>, selections: Seq<EditorSelection>, n: int) -> Option<
    Seq<u8>,
>
    decreases n,
{
    if n <= 0 {
        None
    } else {
        let before = joined_selections(t, selections, n - 1);
        let range = selections[n - 1].range;
        let part = t.subrange(range.start as int, range.end as int);
        if range.start == range.end {
            before
        } else {
            match before {
                Some(before) => Some(before + seq![10u8] + part),
                None => Some(part),
            }
        }
    }
}

impl InputState {
    /// What Enter inserts at each selection: a line feed and, in a code editor,
    /// the indentation of the line that comes next there.
    pub fn newline_texts_for_selections(&self, indents: &Vec<String>) -> (texts: Vec<String>)
        requires
            indents@.len() == self.all_selections().len(),
        ensures
            texts@.len() == indents@.len(),
            forall|i: int|
                #![trigger texts@[i]]
                0 <= i < texts@.len() ==> texts@[i]@ == seq!['\n'] + if self.mode is CodeEditor {
                    indents@[i]@
                } else {
                    Seq::empty()
                },
    {
        let mut texts: Vec<String> = Vec::new();
        while texts.len() < indents.len()
            invariant
                texts@.len() <= indents@.len(),
                forall|i: int|
                    #![trigger texts@[i]]
                    0 <= i < texts@.len() ==> texts@[i]@ == seq!['\n'] + if self.mode is CodeEditor {
                        indents@[i]@
                    } else {
                        Seq::empty()
                    },
            decreases indents.len() - texts.len(),
        {
            let mut text = String::new();
            chars::push_char(&mut text, '\n');
            if self.mode.is_code_editor() {
                text::push_text(&mut text, indents[texts.len()].as_str());
            }
            assert(text@ =~= seq!['\n'] + if self.mode is CodeEditor {
                indents@[texts@.len() as int]@
            } else {
                Seq::empty()
            });
            texts.push(text);
        }
        texts
    }

    /// What the selections hold, in the order of the text and one below the
    /// other, or `None` where all of them are carets.
    pub fn selected_text_for_all_selections(&self) -> (copied: Option<String>)
        requires
            self.wf(),
        ensures
            ({
                let ordered = in_text_order(self.all_selections());
                let expected = joined_selections(self.bytes(), ordered, ordered.len() as int);
                match copied {
                    Some(copied) => expected == Some(encode_utf8(copied@)),
                    None => expected is None,
                }
            }),
    {
        let document = self.document();
        let current = self.selections();
        let ghost t = self.bytes();
        let mut keys: Vec<(usize, usize)> = Vec::new();
        while keys.len() < current.len()
            invariant
                keys@.len() <= current@.len(),
                forall|k: int|
                    0 <= k < keys@.len() ==> #[trigger] keys@[k] == (
                        current@[k].range.start,
                        current@[k].range.end,
                    ),
            decreases current.len() - keys.len(),
        {
            let i: usize = keys.len();
            keys.push((current[i].range.start, current[i].range.end));
        }
        let ghost kv = Seq::new(
            current@.len(),
            |i: int| (current@[i].range.start as int, current@[i].range.end as int),
        );
        assert(order::keys_view(keys@) =~= kv);
        let order = order::stable_order(&keys);
        let ghost ov = in_text_order(current@);
        proof {
            reveal_strlit("\n");
            crate::comment::lemma_ascii_bytes("\n"@);
            assert(encode_utf8("\n"@) =~= seq![10u8]);
        }
        let mut copied: Option<String> = None;
        let mut n: usize = 0;
        while n < order.len()
            invariant
                n <= order@.len(),
                order@.len() == current@.len(),
                self.wf(),
                document.wf(),
                document.bytes() == t,
                t == self.bytes(),
                current@ == self.all_selections(),
                encode_utf8("\n"@) == seq![10u8],
                ov == in_text_order(current@),
                kv == Seq::new(
                    current@.len(),
                    |i: int| (current@[i].range.start as int, current@[i].range.end as int),
                ),
                order::indices_view(order@) == order::sorted_order(kv, current@.len() as int),
                forall|i: int| 0 <= i < order@.len() ==> #[trigger] order@[i] < current@.len(),
                match copied {
                    Some(copied) => joined_selections(t, ov, n as int) == Some(
                        encode_utf8(copied@),
                    ),
                    None => joined_selections(t, ov, n as int) is None,
                },
            decreases order.len() - n,
        {
            let at: usize = order[n];
            assert(order::indices_view(order@)[n as int] == at);
            let selection = current[at];
            assert(ov[n as int] == selection);
            assert(self.all_selections()[at as int] == selection);
            if !selection.is_empty() {
                let part = document.slice(selection.range.start, selection.range.end);
                match copied {
                    Some(held) => {
                        let mut text = held;
                        text::push_text(&mut text, "\n");
                        text::push_text(&mut text, part.as_str());
                        copied = Some(text);
                    },
                    None => {
                        copied = Some(part);
                    },
                }
            }
            n = n + 1;
        }
        copied
    }
}

} // verus!
