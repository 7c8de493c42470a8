//! Positions made of a line and a count of scalars in it.

use crate::cursor::Position;
use crate::text;
use crate::text::Document;
use vstd::prelude::*;
use vstd::utf8::*;

verus! {

/// A part of the text between two positions.
#[derive(Debug, Copy, Clone, PartialEq, Eq, Structural)]
pub struct TextRange {
    pub start: Position,
    pub end: Position,
}

impl TextRange {
    pub fn new(start: Position, end: Position) -> (range: Self)
        ensures
            range == (TextRange { start, end }),
    {
        TextRange { start, end }
    }
}

/// `a` is not behind `b`.
pub open spec fn position_le(a: Position, b: Position) -> bool {
    a.line < b.line || (a.line == b.line && a.character <= b.character)
}

pub fn check_position_le(a: Position, b: Position) -> (le: bool)
    ensures
        le == position_le(a, b),
{
    a.line < b.line || (a.line == b.line && a.character <= b.character)
}

/// The offset `n` scalars behind `from`, at most `end`.
pub open spec fn advanced(t: Seq<u8>, from: int, end: int, n: int) -> int
    decreases n,
{
    if n <= 0 || from >= end {
        from
    } else {
        advanced(t, text::ceil_boundary(t, from + 1), end, n - 1)
    }
}

/// The number of scalars that start at `from` or behind it and before `to`.
pub open spec fn scalars(t: Seq<u8>, from: int, to: int) -> int
    decreases to - from,
{
    if to <= from {
        0
    } else {
        scalars(t, from, to - 1) + if text::is_boundary(t, to - 1) {
            1int
        } else {
            0int
        }
    }
}

/// The number of scalars of a row.
pub open spec fn row_scalars(t: Seq<u8>, row: int) -> int {
    scalars(t, text::line_start(t, row), text::line_end(t, row))
}

/// The offset of a position: a row past the last is the end of the text, a
/// column past the end of its row is that end.
pub open spec fn position_offset(t: Seq<u8>, position: Position) -> int {
    if position.line < text::line_count(t) {
        advanced(
            t,
            text::line_start(t, position.line as int),
            text::line_end(t, position.line as int),
            position.character as int,
        )
    } else {
        t.len() as int
    }
}

/// The position of an offset.
pub open spec fn offset_position(t: Seq<u8>, o: int) -> Position {
    let row = text::row_at(t, o);
    Position {
        line: row as u32,
        character: scalars(t, text::line_start(t, row), text::floor_boundary(t, o)) as u32,
    }
}

/// The text has a scalar or an end of a row at the position.
pub open spec fn is_exact(t: Seq<u8>, position: Position) -> bool {
    position.line < text::line_count(t) && position.character <= row_scalars(
        t,
        position.line as int,
    )
}

/// The offset of a position that the text has.
pub open spec fn exact_offset(t: Seq<u8>, position: Position) -> Option<int> {
    if is_exact(t, position) {
        Some(position_offset(t, position))
    } else {
        None
    }
}

pub proof fn lemma_scalars_split(t: Seq<u8>, a: int, b: int, c: int)
    requires
        a <= b <= c,
    ensures
        scalars(t, a, c) == scalars(t, a, b) + scalars(t, b, c),
        0 <= scalars(t, a, b) <= b - a,
    decreases c - a,
{
    if b < c {
        lemma_scalars_split(t, a, b, c - 1);
    } else if a < b {
        lemma_scalars_split(t, a, b - 1, b - 1);
    }
}

/// One scalar lies between a boundary and the next.
pub proof fn lemma_scalars_step(t: Seq<u8>, from: int)
    requires
        0 <= from < t.len(),
        text::is_boundary(t, from),
    ensures
        from < text::ceil_boundary(t, from + 1) <= t.len(),
        text::is_boundary(t, text::ceil_boundary(t, from + 1)),
        scalars(t, from, text::ceil_boundary(t, from + 1)) == 1,
{
    lemma_ceil_gap(t, from + 1);
    text::lemma_ceil_boundary(t, from + 1);
    let next = text::ceil_boundary(t, from + 1);
    lemma_scalars_split(t, from, from + 1, next);
    assert(scalars(t, from, from) == 0);
    assert(scalars(t, from, from + 1) == 1);
}

/// No scalar starts before the next boundary.
proof fn lemma_ceil_gap(t: Seq<u8>, o: int)
    requires
        0 < o <= t.len(),
    ensures
        scalars(t, o, text::ceil_boundary(t, o)) == 0,
    decreases t.len() - o,
{
    if o < t.len() && is_continuation_byte(t[o]) {
        lemma_ceil_gap(t, o + 1);
        text::lemma_ceil_boundary(t, o + 1);
        lemma_scalars_split(t, o, o + 1, text::ceil_boundary(t, o + 1));
        assert(scalars(t, o, o) == 0);
        assert(!text::is_boundary(t, o));
        assert(scalars(t, o, o + 1) == 0);
    }
}

/// Where an advance ends: on a boundary, with as many scalars passed as asked
/// for or as there are.
pub proof fn lemma_advanced(t: Seq<u8>, from: int, end: int, n: int)
    requires
        0 <= from <= end <= t.len(),
        text::is_boundary(t, from),
        text::is_boundary(t, end),
    ensures
        from <= advanced(t, from, end, n) <= end,
        text::is_boundary(t, advanced(t, from, end, n)),
        0 <= n <= scalars(t, from, end) ==> scalars(t, from, advanced(t, from, end, n)) == n,
        n >= scalars(t, from, end) ==> advanced(t, from, end, n) == end,
    decreases n,
{
    lemma_scalars_split(t, from, from, end);
    if n > 0 && from < end {
        lemma_scalars_step(t, from);
        let next = text::ceil_boundary(t, from + 1);
        lemma_ceil_below(t, from + 1, end);
        lemma_scalars_split(t, from, next, end);
        lemma_advanced(t, next, end, n - 1);
        lemma_scalars_split(t, from, next, advanced(t, next, end, n - 1));
    } else if n <= 0 && from < end {
        lemma_scalars_step(t, from);
        lemma_ceil_below(t, from + 1, end);
        let next = text::ceil_boundary(t, from + 1);
        lemma_scalars_split(t, from, next, end);
        lemma_scalars_split(t, next, end, end);
    }
}

/// The next boundary is not behind a boundary that follows.
proof fn lemma_ceil_below(t: Seq<u8>, o: int, end: int)
    requires
        0 < o <= end <= t.len(),
        text::is_boundary(t, end),
    ensures
        text::ceil_boundary(t, o) <= end,
    decreases end - o,
{
    if o < end && is_continuation_byte(t[o]) {
        lemma_ceil_below(t, o + 1, end);
    }
}

/// Two boundaries with as many scalars before them are the same.
proof fn lemma_scalars_injective(t: Seq<u8>, from: int, a: int, b: int)
    requires
        0 <= from <= a <= t.len(),
        from <= b <= t.len(),
        text::is_boundary(t, a),
        text::is_boundary(t, b),
        scalars(t, from, a) == scalars(t, from, b),
    ensures
        a == b,
{
    if a < b {
        lemma_scalars_split(t, from, a, b);
        lemma_scalars_step(t, a);
        lemma_ceil_below(t, a + 1, b);
        let next = text::ceil_boundary(t, a + 1);
        lemma_scalars_split(t, a, next, b);
        lemma_scalars_split(t, next, b, b);
    } else if b < a {
        lemma_scalars_split(t, from, b, a);
        lemma_scalars_step(t, b);
        lemma_ceil_below(t, b + 1, a);
        let next = text::ceil_boundary(t, b + 1);
        lemma_scalars_split(t, b, next, a);
        lemma_scalars_split(t, next, a, a);
    }
}

/// The row of a position and the offset of a position agree.
pub proof fn lemma_position_offset(t: Seq<u8>, position: Position)
    requires
        valid_utf8(t),
    ensures
        0 <= position_offset(t, position) <= t.len(),
        text::is_boundary(t, position_offset(t, position)),
        position.line < text::line_count(t) ==> text::line_start(t, position.line as int)
            <= position_offset(t, position) <= text::line_end(t, position.line as int),
{
    if position.line < text::line_count(t) {
        let row = position.line as int;
        text::lemma_line_boundaries(t, row);
        text::lemma_line_end(t, row);
        lemma_advanced(
            t,
            text::line_start(t, row),
            text::line_end(t, row),
            position.character as int,
        );
    }
}

/// A position that the text has is the position of its offset.
pub proof fn law_offset_of_exact_position(t: Seq<u8>, position: Position)
    requires
        valid_utf8(t),
        is_exact(t, position),
    ensures
        offset_position(t, position_offset(t, position)) == position,
{
    let row = position.line as int;
    let o = position_offset(t, position);
    lemma_position_offset(t, position);
    text::lemma_line_boundaries(t, row);
    text::lemma_line_end(t, row);
    text::lemma_floor_boundary(t, o);
    lemma_advanced(
        t,
        text::line_start(t, row),
        text::line_end(t, row),
        position.character as int,
    );
    lemma_row_of(t, row, o);
}

/// An offset in a row has that row.
proof fn lemma_row_of(t: Seq<u8>, row: int, o: int)
    requires
        0 <= row < text::line_count(t),
        text::line_start(t, row) <= o <= text::line_end(t, row),
        text::is_boundary(t, o),
    ensures
        text::row_at(t, o) == row,
{
    text::lemma_line_start(t, row);
    text::lemma_line_end(t, row);
    text::lemma_floor_boundary(t, o);
    text::lemma_newlines_gap(t, text::line_start(t, row), o);
}

/// The offset of the position of a boundary is the boundary, in texts whose
/// positions have room for it.
pub proof fn law_position_of_boundary(t: Seq<u8>, o: int)
    requires
        valid_utf8(t),
        0 <= o <= t.len() <= u32::MAX,
        text::is_boundary(t, o),
    ensures
        is_exact(t, offset_position(t, o)),
        position_offset(t, offset_position(t, o)) == o,
{
    let row = text::row_at(t, o);
    text::lemma_row_at(t, o);
    text::lemma_floor_boundary(t, o);
    text::lemma_line_boundaries(t, row);
    text::lemma_line_end(t, row);
    text::lemma_newlines_bound(t, t.len() as int);
    text::lemma_newlines_bound(t, o);
    let start = text::line_start(t, row);
    let end = text::line_end(t, row);
    lemma_scalars_split(t, start, o, end);
    lemma_scalars_split(t, o, o, end);
    lemma_scalars_split(t, o, end, end);
    let n = scalars(t, start, o);
    lemma_advanced(t, start, end, n);
    lemma_scalars_injective(t, start, advanced(t, start, end, n), o);
}

impl Document {
    /// The offset of a position.
    pub fn position_to_offset(&self, position: &Position) -> (offset: usize)
        requires
            self.wf(),
        ensures
            offset == position_offset(self.bytes(), *position),
            offset <= self.bytes().len(),
            text::is_boundary(self.bytes(), offset as int),
    {
        let ghost t = self.bytes();
        proof {
            self.lemma_wf();
            lemma_position_offset(t, *position);
        }
        if position.line as usize >= self.lines_len() {
            return self.len();
        }
        let row: usize = position.line as usize;
        let end: usize = self.line_end_offset(row);
        let mut offset: usize = self.line_start_offset(row);
        let mut left: u32 = position.character;
        proof {
            text::lemma_line_boundaries(t, row as int);
        }
        let bytes = self.as_bytes();
        while left > 0 && offset < end
            invariant
                self.wf(),
                t == self.bytes(),
                bytes@ == t,
                valid_utf8(t),
                offset <= end <= t.len(),
                text::is_boundary(t, offset as int),
                text::is_boundary(t, end as int),
                advanced(t, offset as int, end as int, left as int) == position_offset(
                    t,
                    *position,
                ),
            decreases left,
        {
            proof {
                lemma_scalars_step(t, offset as int);
                lemma_ceil_below(t, offset + 1, end as int);
            }
            offset = self.clip_right(offset + 1);
            left = left - 1;
        }
        offset
    }

    /// The position of an offset.
    pub fn offset_to_position(&self, offset: usize) -> (position: Position)
        requires
            self.wf(),
        ensures
            position == offset_position(self.bytes(), offset as int),
    {
        let point = self.offset_to_point(offset);
        let start: usize = self.line_start_offset(point.row);
        proof {
            self.lemma_wf();
        }
        let character: usize = self.count_scalars(start, start + point.column);
        Position { line: point.row as u32, character: character as u32 }
    }

    /// The number of scalars that start in a part of the text.
    fn count_scalars(&self, from: usize, to: usize) -> (count: usize)
        requires
            self.wf(),
            from <= to <= self.bytes().len(),
        ensures
            count == scalars(self.bytes(), from as int, to as int),
    {
        let mut count: usize = 0;
        let mut i: usize = from;
        while i < to
            invariant
                self.wf(),
                from <= i <= to <= self.bytes().len(),
                count == scalars(self.bytes(), from as int, i as int),
                count <= i - from,
            decreases to - i,
        {
            if self.is_char_boundary(i) {
                count = count + 1;
            }
            i = i + 1;
        }
        count
    }

    /// The offset of a position that the text has.
    pub fn exact_offset(&self, position: &Position) -> (offset: Option<usize>)
        requires
            self.wf(),
        ensures
            match offset {
                Some(offset) => exact_offset(self.bytes(), *position) == Some(offset as int)
                    && offset <= self.bytes().len() && text::is_boundary(
                    self.bytes(),
                    offset as int,
                ),
                None => exact_offset(self.bytes(), *position) is None,
            },
    {
        let row: usize = position.line as usize;
        if row >= self.lines_len() {
            return None;
        }
        let count: usize = self.count_scalars(
            self.line_start_offset(row),
            self.line_end_offset(row),
        );
        if position.character as usize > count {
            return None;
        }
        Some(self.position_to_offset(position))
    }
}

} // verus!
