//! Selections and positions.

use std::ops::Range;
use vstd::prelude::*;

verus! {

/// A selection in the text, represented by start and end byte indices.
#[derive(Debug, Copy, Clone, PartialEq, Eq, Structural)]
pub struct Selection {
    pub start: usize,
    pub end: usize,
}

/// One editor selection expressed as a normalized byte range plus its active end.
///
/// `range` always stores `start <= end`. When `reversed` is false the active
/// caret is at `range.end`; when true it is at `range.start`.
#[derive(Debug, Copy, Clone, PartialEq, Eq, Structural)]
pub struct EditorSelection {
    pub range: Selection,
    pub reversed: bool,
}

/// A zero-based line and character position.
#[derive(Debug, Copy, Clone, PartialEq, Eq, Structural)]
pub struct Position {
    pub line: u32,
    pub character: u32,
}

impl Position {
    pub fn new(line: u32, character: u32) -> (position: Self)
        ensures
            position.line == line,
            position.character == character,
    {
        Position { line, character }
    }
}

impl Default for Selection {
    fn default() -> (selection: Self)
        ensures
            selection.start == 0,
            selection.end == 0,
    {
        Selection { start: 0, end: 0 }
    }
}

impl Default for EditorSelection {
    fn default() -> (selection: Self)
        ensures
            selection == spec_caret(0),
    {
        EditorSelection { range: Selection { start: 0, end: 0 }, reversed: false }
    }
}

/// The selection that stretches from `anchor` to `head`.
pub open spec fn spec_from_anchor_and_head(anchor: usize, head: usize) -> EditorSelection {
    if head < anchor {
        EditorSelection { range: Selection { start: head, end: anchor }, reversed: true }
    } else {
        EditorSelection { range: Selection { start: anchor, end: head }, reversed: false }
    }
}

/// The collapsed selection at `offset`.
pub open spec fn spec_caret(offset: usize) -> EditorSelection {
    EditorSelection { range: Selection { start: offset, end: offset }, reversed: false }
}

/// The selection between two offsets given in either order.
pub open spec fn spec_between(a: usize, b: usize, reversed: bool) -> EditorSelection {
    EditorSelection {
        range: Selection {
            start: if a <= b { a } else { b },
            end: if a <= b { b } else { a },
        },
        reversed,
    }
}

impl EditorSelection {
    /// The range is normalized.
    pub open spec fn wf(self) -> bool {
        self.range.start <= self.range.end
    }

    pub open spec fn spec_anchor(self) -> usize {
        if self.reversed {
            self.range.end
        } else {
            self.range.start
        }
    }

    pub open spec fn spec_head(self) -> usize {
        if self.reversed {
            self.range.start
        } else {
            self.range.end
        }
    }

    /// Construct a selection from its anchor and active caret byte offsets.
    pub fn from_anchor_and_head(anchor: usize, head: usize) -> (selection: Self)
        ensures
            selection == spec_from_anchor_and_head(anchor, head),
            selection.wf(),
    {
        if head < anchor {
            EditorSelection { range: Selection::new(head, anchor), reversed: true }
        } else {
            EditorSelection { range: Selection::new(anchor, head), reversed: false }
        }
    }

    /// Construct a collapsed selection at `offset`.
    pub fn caret(offset: usize) -> (selection: Self)
        ensures
            selection == spec_caret(offset),
            selection.wf(),
    {
        EditorSelection::from_anchor_and_head(offset, offset)
    }

    /// The selection between two offsets given in either order.
    pub(crate) fn between(a: usize, b: usize, reversed: bool) -> (selection: Self)
        ensures
            selection == spec_between(a, b, reversed),
            selection.wf(),
    {
        if a <= b {
            EditorSelection { range: Selection::new(a, b), reversed }
        } else {
            EditorSelection { range: Selection::new(b, a), reversed }
        }
    }

    /// Return the stationary end of this selection.
    pub fn anchor(&self) -> (offset: usize)
        ensures
            offset == self.spec_anchor(),
    {
        if self.reversed {
            self.range.end
        } else {
            self.range.start
        }
    }

    /// Return the active caret end of this selection.
    pub fn head(&self) -> (offset: usize)
        ensures
            offset == self.spec_head(),
    {
        if self.reversed {
            self.range.start
        } else {
            self.range.end
        }
    }

    pub fn is_empty(&self) -> (empty: bool)
        ensures
            empty == (self.range.start == self.range.end),
    {
        self.range.is_empty()
    }
}

impl Selection {
    pub fn new(start: usize, end: usize) -> (selection: Self)
        ensures
            selection.start == start,
            selection.end == end,
    {
        Selection { start, end }
    }

    pub fn len(&self) -> (len: usize)
        ensures
            len == (if self.start <= self.end {
                self.end - self.start
            } else {
                0
            }),
    {
        self.end.saturating_sub(self.start)
    }

    pub fn is_empty(&self) -> (empty: bool)
        ensures
            empty == (self.start == self.end),
    {
        self.start == self.end
    }

    /// Clears the selection, setting start and end to 0.
    pub fn clear(&mut self)
        ensures
            final(self).start == 0,
            final(self).end == 0,
    {
        self.start = 0;
        self.end = 0;
    }

    /// Checks if the given offset is within the selection range.
    pub fn contains(&self, offset: usize) -> (inside: bool)
        ensures
            inside == (self.start <= offset < self.end),
    {
        offset >= self.start && offset < self.end
    }
}

impl From<Range<usize>> for Selection {
    fn from(value: Range<usize>) -> (selection: Self) {
        Selection::new(value.start, value.end)
    }
}

impl vstd::std_specs::convert::FromSpecImpl<Range<usize>> for Selection {
    open spec fn obeys_from_spec() -> bool {
        true
    }

    open spec fn from_spec(value: Range<usize>) -> Self {
        Selection { start: value.start, end: value.end }
    }
}

impl From<Selection> for Range<usize> {
    fn from(value: Selection) -> (range: Self) {
        value.start..value.end
    }
}

impl vstd::std_specs::convert::FromSpecImpl<Selection> for Range<usize> {
    open spec fn obeys_from_spec() -> bool {
        true
    }

    open spec fn from_spec(value: Selection) -> Self {
        Range { start: value.start, end: value.end }
    }
}

/// A selection built from an anchor and a head gives both back, and its range
/// is the span between them.
pub proof fn law_anchor_head_round_trip(anchor: usize, head: usize)
    ensures
        spec_from_anchor_and_head(anchor, head).spec_anchor() == anchor,
        spec_from_anchor_and_head(anchor, head).spec_head() == head,
        spec_from_anchor_and_head(anchor, head).wf(),
{
}

/// Every normalized selection is either rebuilt from its anchor and head, or
/// is a reversed caret, whose anchor and head coincide.
pub proof fn law_selection_is_its_ends(selection: EditorSelection)
    requires
        selection.wf(),
        selection.reversed ==> selection.range.start < selection.range.end,
    ensures
        spec_from_anchor_and_head(selection.spec_anchor(), selection.spec_head()) == selection,
{
}

} // verus!
