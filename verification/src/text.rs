//! Lines, rows and columns of UTF-8 text addressed by byte offsets.

use std::ops::Range;
use vstd::prelude::*;
use vstd::string::*;
use vstd::utf8::*;

verus! {

/// Where ranges start and end.
pub open spec fn ranges_view(ranges: Seq<Range<usize>>) -> Seq<(int, int)> {
    Seq::new(ranges.len(), |i: int| (ranges[i].start as int, ranges[i].end as int))
}

/// Number of line feeds among the first `n` bytes of `t`.
pub open spec fn newlines(t: Seq<u8>, n: int) -> int
    decreases n,
{
    if n <= 0 {
        0
    } else {
        newlines(t, n - 1) + if t[n - 1] == 10 {
            1int
        } else {
            0int
        }
    }
}

/// Number of lines: one more than the number of line feeds.
pub open spec fn line_count(t: Seq<u8>) -> int {
    newlines(t, t.len() as int) + 1
}

/// Offset of the first line feed at or after `p`, or the end of the text.
pub open spec fn line_end_from(t: Seq<u8>, p: int) -> int
    decreases t.len() - p,
{
    if p < 0 || p >= t.len() {
        t.len() as int
    } else if t[p] == 10 {
        p
    } else {
        line_end_from(t, p + 1)
    }
}

/// Offset at which `row` starts, or the end of the text for rows past the last.
pub open spec fn line_start(t: Seq<u8>, row: int) -> int
    decreases row,
{
    if row <= 0 {
        0
    } else {
        let end = line_end_from(t, line_start(t, row - 1));
        if end < t.len() {
            end + 1
        } else {
            t.len() as int
        }
    }
}

/// Offset at which `row` ends, before its line feed.
pub open spec fn line_end(t: Seq<u8>, row: int) -> int {
    line_end_from(t, line_start(t, row))
}

/// The bytes of `row` without its line feed.
pub open spec fn line_bytes(t: Seq<u8>, row: int) -> Seq<u8> {
    t.subrange(line_start(t, row), line_end(t, row))
}

/// `s` without one trailing carriage return.
pub open spec fn without_cr(s: Seq<u8>) -> Seq<u8> {
    if s.len() > 0 && s.last() == 13 {
        s.drop_last()
    } else {
        s
    }
}

/// The bytes of `row` without its line ending, be it `\n` or `\r\n`.
pub open spec fn content_bytes(t: Seq<u8>, row: int) -> Seq<u8> {
    without_cr(line_bytes(t, row))
}

/// Whether `o` lies on a scalar boundary of `t`.
pub open spec fn is_boundary(t: Seq<u8>, o: int) -> bool {
    o == 0 || o == t.len() || (0 < o < t.len() && !is_continuation_byte(t[o]))
}

/// The greatest scalar boundary at or before `o`.
pub open spec fn floor_boundary(t: Seq<u8>, o: int) -> int
    decreases o,
{
    if o <= 0 {
        0
    } else if o >= t.len() {
        t.len() as int
    } else if is_continuation_byte(t[o]) {
        floor_boundary(t, o - 1)
    } else {
        o
    }
}

/// The least scalar boundary at or after `o`.
pub open spec fn ceil_boundary(t: Seq<u8>, o: int) -> int
    decreases t.len() - o,
{
    if o <= 0 {
        0
    } else if o >= t.len() {
        t.len() as int
    } else if is_continuation_byte(t[o]) {
        ceil_boundary(t, o + 1)
    } else {
        o
    }
}

/// The row that holds `o`.
pub open spec fn row_at(t: Seq<u8>, o: int) -> int {
    newlines(t, floor_boundary(t, o))
}

/// The byte column of `o` in its row.
pub open spec fn column_at(t: Seq<u8>, o: int) -> int {
    floor_boundary(t, o) - line_start(t, row_at(t, o))
}

pub proof fn lemma_newlines_monotonic(t: Seq<u8>, a: int, b: int)
    requires
        a <= b,
    ensures
        0 <= newlines(t, a) <= newlines(t, b),
    decreases b - a, b,
{
    if a < b {
        lemma_newlines_monotonic(t, a, b - 1);
    } else if a > 0 {
        lemma_newlines_monotonic(t, a - 1, b - 1);
    }
}

pub proof fn lemma_newlines_bound(t: Seq<u8>, n: int)
    requires
        0 <= n,
    ensures
        0 <= newlines(t, n) <= n,
    decreases n,
{
    if n > 0 {
        lemma_newlines_bound(t, n - 1);
    }
}

/// No line feed between `a` and `b` leaves the count unchanged.
pub proof fn lemma_newlines_gap(t: Seq<u8>, a: int, b: int)
    requires
        0 <= a <= b <= t.len(),
        forall|i: int| a <= i < b ==> t[i] != 10,
    ensures
        newlines(t, a) == newlines(t, b),
    decreases b - a,
{
    if a < b {
        lemma_newlines_gap(t, a, b - 1);
    }
}

pub proof fn lemma_line_end_from(t: Seq<u8>, p: int)
    requires
        0 <= p <= t.len(),
    ensures
        p <= line_end_from(t, p) <= t.len(),
        forall|i: int| p <= i < line_end_from(t, p) ==> t[i] != 10,
        line_end_from(t, p) < t.len() ==> t[line_end_from(t, p)] == 10,
    decreases t.len() - p,
{
    if p < t.len() && t[p] != 10 {
        lemma_line_end_from(t, p + 1);
    }
}

pub proof fn lemma_line_start(t: Seq<u8>, row: int)
    ensures
        0 <= line_start(t, row) <= t.len(),
        0 <= row < line_count(t) ==> newlines(t, line_start(t, row)) == row,
        0 < row < line_count(t) ==> line_start(t, row) > 0 && t[line_start(t, row) - 1] == 10,
        row >= line_count(t) ==> line_start(t, row) == t.len(),
    decreases row,
{
    lemma_newlines_bound(t, t.len() as int);
    if row > 0 {
        lemma_line_start(t, row - 1);
        let p = line_start(t, row - 1);
        lemma_line_end_from(t, p);
        let e = line_end_from(t, p);
        lemma_newlines_gap(t, p, e);
        if e < t.len() {
            assert(newlines(t, e + 1) == newlines(t, e) + 1);
            lemma_newlines_monotonic(t, e + 1, t.len() as int);
            if row - 1 >= line_count(t) {
                assert(p == t.len());
            }
        } else {
            assert(newlines(t, t.len() as int) == newlines(t, p));
        }
    }
}

pub proof fn lemma_line_start_monotonic(t: Seq<u8>, a: int, b: int)
    requires
        a <= b,
    ensures
        line_start(t, a) <= line_start(t, b),
    decreases b - a,
{
    if a < b {
        lemma_line_start_monotonic(t, a, b - 1);
        lemma_line_start(t, b - 1);
        if b > 0 {
            lemma_line_end_from(t, line_start(t, b - 1));
        }
    }
}

/// Where a row ends: before the start of the next row.
pub proof fn lemma_line_end(t: Seq<u8>, row: int)
    requires
        0 <= row,
    ensures
        0 <= line_start(t, row) <= line_end(t, row) <= t.len(),
        line_end(t, row) <= line_start(t, row + 1) <= t.len(),
        row + 1 < line_count(t) ==> line_end(t, row) < t.len() && t[line_end(t, row)] == 10
            && line_start(t, row + 1) == line_end(t, row) + 1,
        row + 1 >= line_count(t) ==> line_end(t, row) == t.len(),
        forall|i: int| line_start(t, row) <= i < line_end(t, row) ==> t[i] != 10,
{
    lemma_line_start(t, row);
    lemma_line_end_from(t, line_start(t, row));
    lemma_line_start(t, row + 1);
    let e = line_end(t, row);
    if row + 1 >= line_count(t) && e < t.len() {
        if row < line_count(t) {
            lemma_newlines_gap(t, line_start(t, row), e);
            assert(newlines(t, e + 1) == newlines(t, e) + 1);
            lemma_newlines_monotonic(t, e + 1, t.len() as int);
        }
    }
    if row + 1 < line_count(t) && e >= t.len() {
        lemma_newlines_gap(t, line_start(t, row), t.len() as int);
    }
}

pub proof fn lemma_floor_boundary(t: Seq<u8>, o: int)
    ensures
        0 <= floor_boundary(t, o) <= t.len(),
        0 <= o ==> floor_boundary(t, o) <= o,
        is_boundary(t, floor_boundary(t, o)),
        0 <= o <= t.len() && is_boundary(t, o) ==> floor_boundary(t, o) == o,
    decreases o,
{
    if 0 < o < t.len() && is_continuation_byte(t[o]) {
        lemma_floor_boundary(t, o - 1);
    }
}

pub proof fn lemma_ceil_boundary(t: Seq<u8>, o: int)
    ensures
        0 <= ceil_boundary(t, o) <= t.len(),
        o <= t.len() ==> o <= ceil_boundary(t, o),
        is_boundary(t, ceil_boundary(t, o)),
        0 <= o <= t.len() && is_boundary(t, o) ==> ceil_boundary(t, o) == o,
    decreases t.len() - o,
{
    if 0 < o < t.len() && is_continuation_byte(t[o]) {
        lemma_ceil_boundary(t, o + 1);
    }
}

/// The row of an offset is a row of the text, and the offset lies in it.
pub proof fn lemma_row_at(t: Seq<u8>, o: int)
    ensures
        0 <= row_at(t, o) < line_count(t),
        line_start(t, row_at(t, o)) <= floor_boundary(t, o) <= line_end(t, row_at(t, o)),
        0 <= column_at(t, o),
{
    lemma_floor_boundary(t, o);
    let f = floor_boundary(t, o);
    lemma_newlines_monotonic(t, f, t.len() as int);
    let r = newlines(t, f);
    lemma_line_start(t, r);
    lemma_line_end(t, r);
    let s = line_start(t, r);
    if s > f {
        assert(t[s - 1] == 10);
        lemma_newlines_monotonic(t, f, s - 1);
        assert(newlines(t, s) == newlines(t, s - 1) + 1);
    }
    let e = line_end(t, r);
    if f > e {
        lemma_newlines_gap(t, s, e);
        assert(newlines(t, e + 1) == newlines(t, e) + 1);
        lemma_newlines_monotonic(t, e + 1, f);
    }
}

pub proof fn lemma_row_at_monotonic(t: Seq<u8>, a: int, b: int)
    requires
        a <= b,
    ensures
        row_at(t, a) <= row_at(t, b),
{
    lemma_floor_monotonic(t, a, b);
    lemma_newlines_monotonic(t, floor_boundary(t, a), floor_boundary(t, b));
}

pub proof fn lemma_floor_monotonic(t: Seq<u8>, a: int, b: int)
    requires
        a <= b,
    ensures
        floor_boundary(t, a) <= floor_boundary(t, b),
    decreases b - a,
{
    lemma_floor_boundary(t, a);
    lemma_floor_boundary(t, b);
    if a < b && 0 < b < t.len() && is_continuation_byte(t[b]) {
        lemma_floor_monotonic(t, a, b - 1);
    }
}

/// Encoding distributes over concatenation.
pub broadcast proof fn lemma_encode_concat(a: Seq<char>, b: Seq<char>)
    ensures
        #[trigger] encode_utf8(a + b) == encode_utf8(a) + encode_utf8(b),
    decreases a.len(),
{
    if a.len() == 0 {
        assert(a + b =~= b);
        assert(encode_utf8(a) =~= seq![]);
    } else {
        lemma_encode_concat(a.drop_first(), b);
        assert((a + b).drop_first() =~= a.drop_first() + b);
        assert((a + b)[0] == a[0]);
        assert(encode_utf8(a + b) =~= encode_utf8(a) + encode_utf8(b));
    }
}

/// `is_boundary` agrees with the library notion on well-formed text.
pub proof fn lemma_boundary(t: Seq<u8>, o: int)
    requires
        valid_utf8(t),
    ensures
        is_boundary(t, o) <==> is_char_boundary(t, o),
{
    is_char_boundary_start_end_of_seq(t);
    if 0 < o < t.len() {
        is_char_boundary_iff_not_is_continuation_byte(t, o);
    }
}

/// A part of well-formed text between two boundaries is well formed.
pub proof fn lemma_valid_subrange(t: Seq<u8>, a: int, b: int)
    requires
        valid_utf8(t),
        0 <= a <= b <= t.len(),
        is_boundary(t, a),
        is_boundary(t, b),
    ensures
        valid_utf8(t.subrange(a, b)),
        is_boundary(t.subrange(a, t.len() as int), b - a),
{
    lemma_boundary(t, a);
    lemma_boundary(t, b);
    valid_utf8_split(t, a);
    let tail = t.subrange(a, t.len() as int);
    assert(valid_utf8(tail));
    if 0 < b - a < tail.len() {
        assert(tail[b - a] == t[b]);
    }
    lemma_boundary(tail, b - a);
    valid_utf8_split(tail, b - a);
    assert(tail.subrange(0, b - a) =~= t.subrange(a, b));
}

/// The offset just past an ASCII byte is a boundary.
pub proof fn lemma_boundary_after_ascii(t: Seq<u8>, i: int)
    requires
        valid_utf8(t),
        0 <= i < t.len(),
        t[i] < 128,
    ensures
        is_boundary(t, i),
        is_boundary(t, i + 1),
{
    is_char_boundary_iff_not_is_continuation_byte(t, i);
    valid_utf8_split(t, i);
    let tail = t.subrange(i, t.len() as int);
    assert(tail[0] == t[i]);
    assert(valid_utf8(pop_first_scalar(tail)));
    if i + 1 < t.len() {
        let rest = pop_first_scalar(tail);
        assert(rest[0] == t[i + 1]);
        assert(valid_first_scalar(rest));
    }
    if i > 0 {
        assert(!is_continuation_byte(t[i]));
    }
}

/// Starts and ends of rows are boundaries.
pub proof fn lemma_line_boundaries(t: Seq<u8>, row: int)
    requires
        valid_utf8(t),
        0 <= row,
    ensures
        is_boundary(t, line_start(t, row)),
        is_boundary(t, line_end(t, row)),
        is_boundary(t, line_start(t, row) + content_bytes(t, row).len()),
        0 <= line_start(t, row) <= line_start(t, row) + content_bytes(t, row).len() <= line_end(
            t,
            row,
        ) <= t.len(),
        content_bytes(t, row) == t.subrange(
            line_start(t, row),
            line_start(t, row) + content_bytes(t, row).len(),
        ),
{
    lemma_line_start(t, row);
    lemma_line_end(t, row);
    let s = line_start(t, row);
    let e = line_end(t, row);
    if 0 < row < line_count(t) {
        lemma_boundary_after_ascii(t, s - 1);
    }
    if e < t.len() {
        lemma_boundary_after_ascii(t, e);
    }
    let line = line_bytes(t, row);
    if line.len() > 0 && line.last() == 13 {
        assert(t[e - 1] == 13);
        lemma_boundary_after_ascii(t, e - 1);
    }
    assert(content_bytes(t, row) =~= t.subrange(s, s + content_bytes(t, row).len()));
}

/// A row and a byte column in it.
#[derive(Debug, Copy, Clone, PartialEq, Eq, Structural)]
pub struct Point {
    pub row: usize,
    pub column: usize,
}

/// Copies the part of `text` between two boundaries.
pub fn slice_text(text: &str, start: usize, end: usize) -> (part: String)
    requires
        start <= end <= encode_utf8(text@).len(),
        is_boundary(encode_utf8(text@), start as int),
        is_boundary(encode_utf8(text@), end as int),
    ensures
        encode_utf8(part@) == encode_utf8(text@).subrange(start as int, end as int),
{
    proof {
        let t = encode_utf8(text@);
        encode_utf8_valid_utf8(text@);
        lemma_boundary(t, start as int);
        lemma_valid_subrange(t, start as int, end as int);
        valid_utf8_split(t, start as int);
        lemma_boundary(t.subrange(start as int, t.len() as int), end - start);
    }
    let (_, tail) = text.split_at(start);
    let (part, _) = tail.split_at(end - start);
    assert(part.spec_bytes() =~= text.spec_bytes().subrange(start as int, end as int));
    part.to_owned()
}

/// Appends `part` to `text`.
pub fn push_text(text: &mut String, part: &str)
    ensures
        final(text)@ == old(text)@ + part@,
        encode_utf8(final(text)@) == encode_utf8(old(text)@) + encode_utf8(part@),
{
    proof {
        lemma_encode_concat(text@, part@);
    }
    text.append(part);
}

/// A snapshot of the text with the start of each row.
pub struct Document {
    text: String,
    starts: Vec<usize>,
}

impl Document {
    /// The UTF-8 bytes of the text.
    pub closed spec fn bytes(&self) -> Seq<u8> {
        encode_utf8(self.text@)
    }

    /// The row index agrees with the text.
    pub closed spec fn wf(&self) -> bool {
        &&& self.starts@.len() == line_count(self.bytes())
        &&& forall|row: int|
            0 <= row < self.starts@.len() ==> self.starts@[row] == line_start(self.bytes(), row)
        &&& self.bytes().len() <= usize::MAX
    }

    pub proof fn lemma_wf(&self)
        requires
            self.wf(),
        ensures
            valid_utf8(self.bytes()),
            1 <= line_count(self.bytes()) <= usize::MAX,
            self.bytes().len() <= usize::MAX,
    {
        encode_utf8_valid_utf8(self.text@);
        lemma_newlines_bound(self.bytes(), self.bytes().len() as int);
        assert(self.starts.len() == self.starts@.len());
    }

    /// Indexes the rows of `text`.
    pub fn new(text: String) -> (document: Self)
        ensures
            document.wf(),
            document.bytes() == encode_utf8(text@),
    {
        let bytes = text.as_str().as_bytes();
        let ghost t = encode_utf8(text@);
        let mut starts: Vec<usize> = Vec::new();
        starts.push(0);
        let mut i: usize = 0;
        while i < bytes.len()
            invariant
                bytes@ == t,
                i <= bytes.len(),
                starts@.len() >= 1,
                starts@.len() == newlines(t, i as int) + 1,
                starts@.last() <= i,
                forall|k: int| starts@.last() <= k < i ==> t[k] != 10,
                forall|row: int| 0 <= row < starts@.len() ==> starts@[row] == line_start(t, row),
            decreases bytes.len() - i,
        {
            if bytes[i] == 10 {
                proof {
                    let row = starts@.len() - 1;
                    assert(t[i as int] == 10);
                    let p = line_start(t, row);
                    lemma_line_end_from(t, p);
                    let e = line_end_from(t, p);
                    if e < i {
                        assert(t[e] == 10);
                    }
                    assert(e == i);
                    assert(line_start(t, row + 1) == i + 1);
                }
                starts.push(i + 1);
            }
            i = i + 1;
        }
        Document { text, starts }
    }

    /// Length of the text in bytes.
    pub fn len(&self) -> (len: usize)
        requires
            self.wf(),
        ensures
            len == self.bytes().len(),
    {
        self.text.as_str().as_bytes().len()
    }

    /// The bytes of the text.
    pub fn as_bytes(&self) -> (bytes: &[u8])
        ensures
            bytes@ == self.bytes(),
    {
        self.text.as_str().as_bytes()
    }

    /// The text.
    pub fn as_str(&self) -> (text: &str)
        ensures
            encode_utf8(text@) == self.bytes(),
    {
        self.text.as_str()
    }

    /// Number of lines: one more than the number of line feeds.
    pub fn lines_len(&self) -> (count: usize)
        requires
            self.wf(),
        ensures
            count == line_count(self.bytes()),
            count > 0,
    {
        proof {
            self.lemma_wf();
        }
        self.starts.len()
    }

    /// Offset at which `row` starts, or the end of the text for rows past the last.
    pub fn line_start_offset(&self, row: usize) -> (offset: usize)
        requires
            self.wf(),
        ensures
            offset == line_start(self.bytes(), row as int),
            offset <= self.bytes().len(),
    {
        proof {
            lemma_line_start(self.bytes(), row as int);
        }
        if row < self.starts.len() {
            self.starts[row]
        } else {
            self.len()
        }
    }

    /// Offset at which `row` ends, before its line feed.
    pub fn line_end_offset(&self, row: usize) -> (offset: usize)
        requires
            self.wf(),
        ensures
            offset == line_end(self.bytes(), row as int),
            line_start(self.bytes(), row as int) <= offset <= self.bytes().len(),
    {
        proof {
            lemma_line_end(self.bytes(), row as int);
        }
        if row < self.starts.len() && row + 1 < self.starts.len() {
            self.starts[row + 1] - 1
        } else {
            self.len()
        }
    }

    /// Whether `offset` lies on a scalar boundary.
    pub fn is_char_boundary(&self, offset: usize) -> (boundary: bool)
        requires
            self.wf(),
        ensures
            boundary == is_boundary(self.bytes(), offset as int),
    {
        let bytes = self.as_bytes();
        if offset == 0 || offset == bytes.len() {
            true
        } else if offset < bytes.len() {
            bytes[offset] < 0x80 || bytes[offset] >= 0xc0
        } else {
            false
        }
    }

    /// Clips `offset` to the text and to the boundary at or before it.
    pub fn clip_left(&self, offset: usize) -> (clipped: usize)
        requires
            self.wf(),
        ensures
            clipped == floor_boundary(self.bytes(), offset as int),
            clipped <= self.bytes().len(),
            clipped <= offset,
    {
        let bytes = self.as_bytes();
        if offset >= bytes.len() {
            return bytes.len();
        }
        let mut o: usize = offset;
        while o > 0 && bytes[o] >= 0x80 && bytes[o] < 0xc0
            invariant
                o <= offset,
                o < bytes.len(),
                bytes@ == self.bytes(),
                floor_boundary(bytes@, o as int) == floor_boundary(bytes@, offset as int),
            decreases o,
        {
            o = o - 1;
        }
        o
    }

    /// Clips `offset` to the text and to the boundary at or after it.
    pub fn clip_right(&self, offset: usize) -> (clipped: usize)
        requires
            self.wf(),
        ensures
            clipped == ceil_boundary(self.bytes(), offset as int),
            clipped <= self.bytes().len(),
    {
        let bytes = self.as_bytes();
        if offset >= bytes.len() {
            return bytes.len();
        }
        if offset == 0 {
            return 0;
        }
        let mut o: usize = offset;
        while o < bytes.len() && bytes[o] >= 0x80 && bytes[o] < 0xc0
            invariant
                0 < offset <= o <= bytes.len(),
                bytes@ == self.bytes(),
                ceil_boundary(bytes@, o as int) == ceil_boundary(bytes@, offset as int),
            decreases bytes.len() - o,
        {
            o = o + 1;
        }
        o
    }

    /// The row and byte column of `offset`, clipped to the boundary at or before it.
    pub fn offset_to_point(&self, offset: usize) -> (point: Point)
        requires
            self.wf(),
        ensures
            point.row == row_at(self.bytes(), offset as int),
            point.column == column_at(self.bytes(), offset as int),
            point.row < line_count(self.bytes()),
            line_start(self.bytes(), point.row as int) + point.column == floor_boundary(
                self.bytes(),
                offset as int,
            ),
            line_start(self.bytes(), point.row as int) + point.column <= line_end(
                self.bytes(),
                point.row as int,
            ) <= self.bytes().len(),
    {
        let clipped = self.clip_left(offset);
        let ghost t = self.bytes();
        proof {
            self.lemma_wf();
            lemma_row_at(t, offset as int);
            lemma_line_end(t, row_at(t, offset as int));
        }
        let mut low: usize = 0;
        let mut high: usize = self.starts.len();
        while high - low > 1
            invariant
                self.wf(),
                t == self.bytes(),
                low < high <= self.starts@.len(),
                line_start(t, low as int) <= clipped,
                high < self.starts@.len() ==> clipped < line_start(t, high as int),
            decreases high - low,
        {
            let middle: usize = low + (high - low) / 2;
            if self.starts[middle] <= clipped {
                low = middle;
            } else {
                high = middle;
            }
        }
        proof {
            let row = row_at(t, offset as int);
            if low < row {
                lemma_line_start_monotonic(t, high as int, row);
            }
            if low > row {
                lemma_line_end(t, row);
                lemma_line_start_monotonic(t, row + 1, low as int);
                lemma_line_start(t, row + 1);
                lemma_line_start(t, low as int);
                if line_start(t, low as int) <= clipped {
                    lemma_newlines_monotonic(t, line_start(t, low as int), clipped as int);
                }
            }
        }
        Point { row: low, column: clipped - self.starts[low] }
    }

    /// The bytes of `row` without its line ending.
    pub fn line_content(&self, row: usize) -> (content: String)
        requires
            self.wf(),
        ensures
            encode_utf8(content@) == content_bytes(self.bytes(), row as int),
    {
        let start = self.line_start_offset(row);
        let end = self.line_end_offset(row);
        let bytes = self.as_bytes();
        proof {
            self.lemma_wf();
            lemma_line_boundaries(self.bytes(), row as int);
        }
        if start < end && bytes[end - 1] == 13 {
            slice_text(self.text.as_str(), start, end - 1)
        } else {
            slice_text(self.text.as_str(), start, end)
        }
    }

    /// Length in bytes of `row` without its line ending.
    pub fn content_len(&self, row: usize) -> (len: usize)
        requires
            self.wf(),
        ensures
            len == content_bytes(self.bytes(), row as int).len(),
            line_start(self.bytes(), row as int) + len <= line_end(self.bytes(), row as int)
                <= self.bytes().len(),
    {
        let start = self.line_start_offset(row);
        let end = self.line_end_offset(row);
        let bytes = self.as_bytes();
        if start < end && bytes[end - 1] == 13 {
            end - 1 - start
        } else {
            end - start
        }
    }

    /// Copies the text between two boundaries.
    pub fn slice(&self, start: usize, end: usize) -> (part: String)
        requires
            self.wf(),
            start <= end <= self.bytes().len(),
            is_boundary(self.bytes(), start as int),
            is_boundary(self.bytes(), end as int),
        ensures
            encode_utf8(part@) == self.bytes().subrange(start as int, end as int),
    {
        slice_text(self.text.as_str(), start, end)
    }
}

} // verus!
