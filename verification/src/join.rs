//! Joining lines.

use crate::chars;
use crate::comment;
use crate::comment::RowSpan;
use crate::cursor;
use crate::cursor::EditorSelection;
use crate::edit;
use crate::edit::EditPlan;
use crate::line_operations as lines;
use crate::order;
use crate::rope;
use crate::text;
use crate::text::Document;
use ropey::Rope;
use std::ops::Range;
use vstd::prelude::*;
use vstd::string::*;
use vstd::utf8::*;

verus! {

/// What a join drops between lines: white space and the byte order mark.
pub open spec fn is_join_whitespace(c: char) -> bool {
    chars::is_whitespace(c) || c == '\u{feff}'
}

/// Index of the first character at or after `from` that a join keeps.
pub open spec fn lead_from(s: Seq<char>, from: int) -> int
    decreases s.len() - from,
{
    if from < 0 || from >= s.len() {
        s.len() as int
    } else if is_join_whitespace(s[from]) {
        lead_from(s, from + 1)
    } else {
        from
    }
}

/// `s` without what a join drops at its end.
pub open spec fn trimmed(s: Seq<char>) -> Seq<char>
    decreases s.len(),
{
    if s.len() > 0 && is_join_whitespace(s.last()) {
        trimmed(s.drop_last())
    } else {
        s
    }
}

/// The characters of a row without its line ending.
pub open spec fn row_chars(t: Seq<u8>, row: int) -> Seq<char> {
    decode_utf8(text::content_bytes(t, row))
}

/// Rows joined so far: their text; for each row where its text starts, how
/// much of it was dropped at its start, and how much of it there is; for each
/// row but the last where it ends; and the last row with text.
pub struct JoinState {
    pub text: Seq<char>,
    pub maps: Seq<(int, int, int)>,
    pub bounds: Seq<int>,
    pub last: int,
}

/// The text to which the next row with text is appended: with one space at its
/// end, in place of what stood there, unless it is empty.
pub open spec fn joint(text: Seq<char>) -> Seq<char> {
    if text.len() == 0 {
        text
    } else if text.last() == ' ' || text.last() == '\t' {
        trimmed(text).push(' ')
    } else {
        text.push(' ')
    }
}

/// One more row, with the characters `c`, joined.
pub open spec fn join_step(state: JoinState, c: Seq<char>) -> JoinState {
    let len = chars::byte_len(state.text);
    let lead = lead_from(c, 0);
    if lead == c.len() {
        JoinState {
            text: state.text,
            maps: state.maps.push((len, chars::byte_len(c), 0)),
            bounds: state.bounds.push(len),
            last: state.last,
        }
    } else {
        let dropped = chars::byte_len(c.take(lead));
        let base = joint(state.text);
        let start = chars::byte_len(base);
        let ends_blank = state.text.len() > 0 && (state.text.last() == ' ' || state.text.last()
            == '\t');
        let previous = state.maps[state.last];
        let maps = if ends_blank {
            state.maps.update(
                state.last,
                (
                    previous.0,
                    previous.1,
                    if start >= previous.0 {
                        start - previous.0
                    } else {
                        0
                    },
                ),
            )
        } else {
            state.maps
        };
        JoinState {
            text: base + c.skip(lead),
            maps: maps.push((start, dropped, chars::byte_len(c) - dropped)),
            bounds: state.bounds.push(
                if ends_blank {
                    start
                } else {
                    len
                },
            ),
            last: state.maps.len() as int,
        }
    }
}

/// The rows from `first` to `first + k` joined.
pub open spec fn join_state(t: Seq<u8>, first: int, k: int) -> JoinState
    decreases k,
{
    if k <= 0 {
        let c = row_chars(t, first);
        JoinState { text: c, maps: seq![(0int, 0int, chars::byte_len(c))], bounds: Seq::empty(), last: 0 }
    } else {
        join_step(join_state(t, first, k - 1), row_chars(t, first + k))
    }
}

/// The rows that a selection joins: those it touches, or its row and the next.
pub open spec fn join_rows_of(t: Seq<u8>, selection: EditorSelection) -> (int, int) {
    let first = text::row_at(t, selection.range.start as int);
    let last = text::row_at(t, selection.range.end as int);
    if first == last {
        (first, edit::min_int(first + 1, text::line_count(t) - 1))
    } else {
        (first, last)
    }
}

/// The blocks of rows that are joined, from top to bottom.
pub open spec fn join_blocks(t: Seq<u8>, selections: Seq<EditorSelection>) -> Seq<(int, int)> {
    lines::merged(
        lines::sorted_blocks(
            Seq::new(selections.len(), |i: int| join_rows_of(t, selections[i])),
        ),
        0,
        selections.len() as int,
    )
}

pub open spec fn block_state(t: Seq<u8>, block: (int, int)) -> JoinState {
    join_state(t, block.0, block.1 - block.0)
}

pub open spec fn join_edits(t: Seq<u8>, blocks: Seq<(int, int)>) -> Seq<(int, int, Seq<u8>)> {
    Seq::new(
        blocks.len(),
        |k: int|
            (
                lines::block_range(t, blocks[k]).0,
                lines::block_range(t, blocks[k]).1,
                encode_utf8(block_state(t, blocks[k]).text),
            ),
    )
}

/// The first block at or after `k` that holds the rows.
pub open spec fn block_of(blocks: Seq<(int, int)>, rows: (int, int), k: int) -> Option<int>
    decreases blocks.len() - k,
{
    if k < 0 || k >= blocks.len() {
        None
    } else if blocks[k].0 <= rows.0 <= blocks[k].1 && blocks[k].0 <= rows.1 <= blocks[k].1 {
        Some(k)
    } else {
        block_of(blocks, rows, k + 1)
    }
}

/// Where an offset in a joined block lies, from the start of the block.
pub open spec fn joined_offset(t: Seq<u8>, block: (int, int), offset: int) -> int {
    let row = text::row_at(t, offset);
    let map = block_state(t, block).maps[row - block.0];
    let column = edit::min_int(
        text::column_at(t, offset),
        text::content_bytes(t, row).len() as int,
    );
    map.0 + edit::min_int(lines::max_int(column - map.1, 0), map.2)
}

/// Where a row ends in a joined block, from the start of the block.
pub open spec fn joined_bound(t: Seq<u8>, block: (int, int), row: int) -> int {
    let state = block_state(t, block);
    if row < block.1 {
        state.bounds[row - block.0]
    } else {
        chars::byte_len(state.text)
    }
}

/// Where a selection comes to lie: a caret at the end of its row, another
/// selection with its text.
pub open spec fn joined_selection(
    t: Seq<u8>,
    blocks: Seq<(int, int)>,
    selection: EditorSelection,
) -> EditorSelection {
    let edits = join_edits(t, blocks);
    let k = block_of(blocks, join_rows_of(t, selection), 0)->Some_0;
    let post = edits[k].0 + edit::growth(edits, k);
    if selection.range.start == selection.range.end {
        cursor::spec_caret(
            (post + joined_bound(
                t,
                blocks[k],
                text::row_at(t, selection.spec_head() as int),
            )) as usize,
        )
    } else {
        cursor::spec_from_anchor_and_head(
            (post + joined_offset(t, blocks[k], selection.spec_anchor() as int)) as usize,
            (post + joined_offset(t, blocks[k], selection.spec_head() as int)) as usize,
        )
    }
}

/// What joining lines plans: nothing without a selection, where one is no
/// range of the text, or beyond the bound on rows.
pub open spec fn join_plan(t: Seq<u8>, selections: Seq<EditorSelection>) -> Option<
    (Seq<(int, int, Seq<u8>)>, Seq<EditorSelection>),
> {
    let blocks = join_blocks(t, selections);
    if selections.len() == 0 || !comment::all_valid(t, selections, selections.len() as int)
        || lines::rows_total(blocks, blocks.len() as int) > lines::MAX_JOIN_LINES {
        None
    } else {
        Some(
            (
                join_edits(t, blocks),
                Seq::new(selections.len(), |i: int| joined_selection(t, blocks, selections[i])),
            ),
        )
    }
}

proof fn lemma_lead(s: Seq<char>, from: int)
    requires
        0 <= from <= s.len(),
    ensures
        from <= lead_from(s, from) <= s.len(),
        lead_from(s, from) < s.len() ==> !is_join_whitespace(s[lead_from(s, from)]),
        forall|i: int| from <= i < lead_from(s, from) ==> is_join_whitespace(#[trigger] s[i]),
    decreases s.len() - from,
{
    if from < s.len() && is_join_whitespace(s[from]) {
        lemma_lead(s, from + 1);
    }
}

proof fn lemma_trimmed(s: Seq<char>)
    ensures
        0 <= chars::byte_len(trimmed(s)) <= chars::byte_len(s),
        s.len() > 0 && is_join_whitespace(s.last()) ==> chars::byte_len(trimmed(s)) + 1
            <= chars::byte_len(s),
    decreases s.len(),
{
    if s.len() > 0 && is_join_whitespace(s.last()) {
        lemma_trimmed(s.drop_last());
        assert(s =~= s.drop_last().push(s.last()));
        chars::lemma_byte_len_push(s.drop_last(), s.last());
    }
}

proof fn lemma_joint(s: Seq<char>)
    ensures
        0 <= chars::byte_len(joint(s)) <= chars::byte_len(s) + 1,
{
    if s.len() > 0 {
        lemma_trimmed(s);
        chars::lemma_byte_len_push(trimmed(s), ' ');
        chars::lemma_byte_len_push(s, ' ');
    }
}

proof fn lemma_row_chars(t: Seq<u8>, row: int)
    requires
        valid_utf8(t),
        0 <= row,
    ensures
        encode_utf8(row_chars(t, row)) == text::content_bytes(t, row),
        chars::byte_len(row_chars(t, row)) == text::content_bytes(t, row).len(),
{
    text::lemma_line_boundaries(t, row);
    text::lemma_valid_subrange(
        t,
        text::line_start(t, row),
        text::line_start(t, row) + text::content_bytes(t, row).len(),
    );
    decode_utf8_encode_utf8(text::content_bytes(t, row));
}

/// Sizes in a joined block are bounded by its rows.
proof fn lemma_join_state(t: Seq<u8>, first: int, k: int)
    requires
        valid_utf8(t),
        0 <= first,
        0 <= k,
    ensures
        ({
            let state = join_state(t, first, k);
            let bound = lines::rows_weight(t, first, first + k);
            &&& 0 <= chars::byte_len(state.text) <= bound
            &&& state.maps.len() == k + 1
            &&& state.bounds.len() == k
            &&& 0 <= state.last <= k
            &&& forall|i: int|
                #![trigger state.maps[i]]
                0 <= i <= k ==> 0 <= state.maps[i].0 && 0 <= state.maps[i].1 && 0
                    <= state.maps[i].2 && state.maps[i].0 + state.maps[i].2 <= bound
            &&& forall|i: int|
                #![trigger state.bounds[i]]
                0 <= i < k ==> 0 <= state.bounds[i] <= bound
        }),
    decreases k,
{
    lemma_row_chars(t, first + k);
    if k > 0 {
        lemma_join_state(t, first, k - 1);
        let before = join_state(t, first, k - 1);
        let c = row_chars(t, first + k);
        lemma_lead(c, 0);
        let lead = lead_from(c, 0);
        chars::lemma_byte_len_split(c, lead);
        lemma_joint(before.text);
        chars::lemma_byte_len_concat(joint(before.text), c.skip(lead));
    } else {
        assert(lines::rows_weight(t, first, first - 1) == 0);
    }
}

/// A joined block is no longer than twice the text.
proof fn lemma_block_state(t: Seq<u8>, block: (int, int))
    requires
        valid_utf8(t),
        0 <= block.0 <= block.1 < text::line_count(t),
    ensures
        lines::rows_weight(t, block.0, block.1) <= 2 * t.len() + 2,
        encode_utf8(block_state(t, block).text).len() <= 2 * t.len() + 2,
        0 <= lines::block_range(t, block).0 <= lines::block_range(t, block).1 <= t.len(),
{
    lemma_join_state(t, block.0, block.1 - block.0);
    lines::lemma_rows_weight(t, block.0, block.1);
    lines::lemma_block_range(t, block);
    text::lemma_line_start(t, block.0);
}

/// The rows joined so far.
struct JoinBuilder {
    text: Vec<char>,
    len: usize,
    maps: Vec<(usize, usize, usize)>,
    bounds: Vec<usize>,
    last: usize,
}

spec fn maps_view(maps: Seq<(usize, usize, usize)>) -> Seq<(int, int, int)> {
    Seq::new(maps.len(), |i: int| (maps[i].0 as int, maps[i].1 as int, maps[i].2 as int))
}

impl JoinBuilder {
    spec fn model(&self) -> JoinState {
        JoinState {
            text: self.text@,
            maps: maps_view(self.maps@),
            bounds: order::indices_view(self.bounds@),
            last: self.last as int,
        }
    }

    spec fn wf(&self) -> bool {
        &&& self.len == chars::byte_len(self.text@)
        &&& self.last < self.maps@.len()
    }
}

fn check_join_whitespace(c: char) -> (whitespace: bool)
    ensures
        whitespace == is_join_whitespace(c),
{
    chars::check_whitespace(c) || c == '\u{feff}'
}

/// Puts one space at the end of the text, in place of what a join drops there.
fn make_joint(builder: &mut JoinBuilder)
    requires
        old(builder).wf(),
        old(builder).len < usize::MAX,
    ensures
        final(builder).wf(),
        final(builder).text@ == joint(old(builder).text@),
        final(builder).maps == old(builder).maps,
        final(builder).bounds == old(builder).bounds,
        final(builder).last == old(builder).last,
{
    let ghost whole = builder.text@;
    if builder.text.len() == 0 {
        return;
    }
    let tail = builder.text[builder.text.len() - 1];
    let ends_blank = tail == ' ' || tail == '\t';
    if ends_blank {
        while builder.text.len() > 0 && check_join_whitespace(builder.text[builder.text.len() - 1])
            invariant
                builder.len == chars::byte_len(builder.text@),
                trimmed(builder.text@) == trimmed(whole),
                builder.maps == old(builder).maps,
                builder.bounds == old(builder).bounds,
                builder.last == old(builder).last,
                builder.len <= old(builder).len,
            decreases builder.text@.len(),
        {
            let c = builder.text[builder.text.len() - 1];
            proof {
                let s = builder.text@;
                assert(s =~= s.drop_last().push(s.last()));
                chars::lemma_byte_len_push(s.drop_last(), s.last());
            }
            builder.len = builder.len - chars::utf8_len(c);
            let _ = builder.text.pop();
        }
    }
    proof {
        chars::lemma_byte_len_push(builder.text@, ' ');
    }
    builder.text.push(' ');
    builder.len = builder.len + 1;
}

/// Joins one more row.
fn join_row(builder: &mut JoinBuilder, c: &Vec<char>)
    requires
        old(builder).wf(),
        old(builder).len + chars::byte_len(c@) + 1 <= usize::MAX,
    ensures
        final(builder).wf(),
        final(builder).model() == join_step(old(builder).model(), c@),
{
    let ghost before = builder.model();
    let ghost whole = chars::byte_len(c@);
    let mut lead: usize = 0;
    let mut dropped: usize = 0;
    proof {
        chars::lemma_byte_len_empty();
        assert(c@.take(0) =~= Seq::<char>::empty());
    }
    while lead < c.len() && check_join_whitespace(c[lead])
        invariant
            lead <= c@.len(),
            lead_from(c@, 0) == lead_from(c@, lead as int),
            dropped == chars::byte_len(c@.take(lead as int)),
            chars::byte_len(c@) <= usize::MAX,
        decreases c.len() - lead,
    {
        proof {
            assert(c@.take(lead + 1) =~= c@.take(lead as int).push(c@[lead as int]));
            chars::lemma_byte_len_push(c@.take(lead as int), c@[lead as int]);
            chars::lemma_byte_len_split(c@, lead + 1);
        }
        dropped = dropped + chars::utf8_len(c[lead]);
        lead = lead + 1;
    }
    if lead == c.len() {
        assert(c@.take(lead as int) =~= c@);
        builder.maps.push((builder.len, dropped, 0));
        builder.bounds.push(builder.len);
        proof {
            assert(builder.model().maps =~= join_step(before, c@).maps);
            assert(builder.model().bounds =~= join_step(before, c@).bounds);
        }
        return;
    }
    let len: usize = builder.len;
    let ends_blank = builder.text.len() > 0 && (builder.text[builder.text.len() - 1] == ' '
        || builder.text[builder.text.len() - 1] == '\t');
    make_joint(builder);
    let start: usize = builder.len;
    proof {
        lemma_joint(before.text);
    }
    let last: usize = builder.last;
    if ends_blank {
        let previous = builder.maps[last];
        let size: usize = if start >= previous.0 {
            start - previous.0
        } else {
            0
        };
        builder.maps[last] = (previous.0, previous.1, size);
        builder.bounds.push(start);
    } else {
        builder.bounds.push(len);
    }
    builder.last = builder.maps.len();
    let mut kept: usize = 0;
    let mut i: usize = lead;
    let ghost base = builder.text@;
    proof {
        assert(c@.subrange(lead as int, lead as int) =~= Seq::<char>::empty());
        assert(base + c@.subrange(lead as int, lead as int) =~= base);
        chars::lemma_byte_len_split(c@, lead as int);
    }
    while i < c.len()
        invariant
            lead <= i <= c@.len(),
            builder.text@ == base + c@.subrange(lead as int, i as int),
            builder.len == chars::byte_len(builder.text@),
            kept == chars::byte_len(c@.subrange(lead as int, i as int)),
            builder.len == start + kept,
            chars::byte_len(c@.skip(lead as int)) + start <= usize::MAX,
            maps_view(builder.maps@) == (if ends_blank {
                before.maps.update(
                    last as int,
                    (
                        before.maps[last as int].0,
                        before.maps[last as int].1,
                        if start >= before.maps[last as int].0 {
                            start - before.maps[last as int].0
                        } else {
                            0
                        },
                    ),
                )
            } else {
                before.maps
            }),
            order::indices_view(builder.bounds@) == before.bounds.push(
                if ends_blank {
                    start as int
                } else {
                    len as int
                },
            ),
            builder.last == before.maps.len(),
            builder.maps@.len() == before.maps.len(),
        decreases c.len() - i,
    {
        proof {
            let part = c@.subrange(lead as int, i as int);
            assert(c@.subrange(lead as int, i + 1) =~= part.push(c@[i as int]));
            chars::lemma_byte_len_push(part, c@[i as int]);
            chars::lemma_byte_len_push(builder.text@, c@[i as int]);
            assert(base + c@.subrange(lead as int, i + 1) =~= builder.text@.push(c@[i as int]));
            assert(c@.skip(lead as int).take(i + 1 - lead) =~= c@.subrange(lead as int, i + 1));
            chars::lemma_byte_len_split(c@.skip(lead as int), i + 1 - lead);
        }
        builder.text.push(c[i]);
        let size = chars::utf8_len(c[i]);
        builder.len = builder.len + size;
        kept = kept + size;
        i = i + 1;
    }
    let ghost maps = builder.maps@;
    builder.maps.push((start, dropped, kept));
    proof {
        assert(c@.subrange(lead as int, c@.len() as int) =~= c@.skip(lead as int));
        let expected = join_step(before, c@);
        assert(builder.model().text =~= expected.text);
        assert(builder.model().maps =~= expected.maps);
        assert(builder.model().bounds =~= expected.bounds);
    }
}

/// A joined block of rows.
struct JoinedBlock {
    first: usize,
    last: usize,
    start: usize,
    end: usize,
    text: String,
    maps: Vec<(usize, usize, usize)>,
    bounds: Vec<usize>,
}

spec fn joined_block_wf(t: Seq<u8>, joined: JoinedBlock) -> bool {
    let block = (joined.first as int, joined.last as int);
    let state = block_state(t, block);
    &&& 0 <= block.0 <= block.1 < text::line_count(t)
    &&& joined.start == lines::block_range(t, block).0
    &&& joined.end == lines::block_range(t, block).1
    &&& joined.text@ == state.text
    &&& maps_view(joined.maps@) == state.maps
    &&& order::indices_view(joined.bounds@) == state.bounds
}

/// Joins the rows of a block.
fn build_join_rewrite(document: &Document, rows: RowSpan) -> (joined: JoinedBlock)
    requires
        document.wf(),
        rows.first <= rows.last < text::line_count(document.bytes()),
        3 * document.bytes().len() + 8 <= usize::MAX,
    ensures
        joined_block_wf(document.bytes(), joined),
        joined.first == rows.first,
        joined.last == rows.last,
{
    let ghost t = document.bytes();
    let ghost first = rows.first as int;
    proof {
        document.lemma_wf();
        lemma_block_state(t, (first, rows.last as int));
        lemma_row_chars(t, first);
        lines::lemma_block_range(t, (first, rows.last as int));
    }
    let content = document.line_content(rows.first);
    proof {
        encode_utf8_decode_utf8(content@);
    }
    let size: usize = content.as_str().as_bytes().len();
    let mut maps: Vec<(usize, usize, usize)> = Vec::new();
    maps.push((0, 0, size));
    let mut builder = JoinBuilder {
        text: chars::chars_of(content.as_str()),
        len: size,
        maps,
        bounds: Vec::new(),
        last: 0,
    };
    proof {
        assert(builder.model().maps =~= join_state(t, first, 0).maps);
        assert(builder.model().bounds =~= join_state(t, first, 0).bounds);
    }
    let mut row: usize = rows.first;
    while row < rows.last
        invariant
            document.wf(),
            valid_utf8(t),
            t == document.bytes(),
            first == rows.first,
            rows.first <= row <= rows.last < text::line_count(t),
            text::line_count(t) <= usize::MAX,
            3 * t.len() + 8 <= usize::MAX,
            builder.wf(),
            builder.model() == join_state(t, first, row - first),
        decreases rows.last - row,
    {
        row = row + 1;
        let content = document.line_content(row);
        proof {
            encode_utf8_decode_utf8(content@);
            lemma_row_chars(t, row as int);
            lemma_join_state(t, first, row - 1 - first);
            lemma_block_state(t, (first, row as int));
            lines::lemma_rows_weight(t, first, row as int);
        }
        let c = chars::chars_of(content.as_str());
        join_row(&mut builder, &c);
    }
    let start = document.line_start_offset(rows.first);
    let end: usize = document.line_start_offset(rows.last) + document.content_len(rows.last);
    let text = chars::string_of(builder.text.as_slice());
    JoinedBlock {
        first: rows.first,
        last: rows.last,
        start,
        end,
        text,
        maps: builder.maps,
        bounds: builder.bounds,
    }
}

/// Where an offset in a joined block lies, from the start of the block.
fn map_join_offset(document: &Document, offset: usize, joined: &JoinedBlock) -> (moved: usize)
    requires
        document.wf(),
        joined_block_wf(document.bytes(), *joined),
        3 * document.bytes().len() + 8 <= usize::MAX,
        joined.first <= text::row_at(document.bytes(), offset as int) <= joined.last,
    ensures
        moved == joined_offset(
            document.bytes(),
            (joined.first as int, joined.last as int),
            offset as int,
        ),
        moved <= 2 * document.bytes().len() + 2,
{
    let ghost t = document.bytes();
    let ghost block = (joined.first as int, joined.last as int);
    let point = document.offset_to_point(offset);
    let k: usize = point.row - joined.first;
    proof {
        document.lemma_wf();
        lemma_join_state(t, block.0, block.1 - block.0);
        lemma_block_state(t, block);
        assert(block_state(t, block).maps[k as int] == maps_view(joined.maps@)[k as int]);
    }
    let map = joined.maps[k];
    let len = document.content_len(point.row);
    let column: usize = if point.column <= len {
        point.column
    } else {
        len
    };
    let relative: usize = if column >= map.1 {
        column - map.1
    } else {
        0
    };
    let inside: usize = if relative <= map.2 {
        relative
    } else {
        map.2
    };
    map.0 + inside
}

/// Where a row ends in a joined block, from the start of the block.
fn find_join_bound(joined: &JoinedBlock, row: usize, Ghost(t): Ghost<Seq<u8>>) -> (bound: usize)
    requires
        valid_utf8(t),
        joined_block_wf(t, *joined),
        joined.first <= row <= joined.last,
    ensures
        bound == joined_bound(t, (joined.first as int, joined.last as int), row as int),
        bound <= 2 * t.len() + 2,
{
    let ghost block = (joined.first as int, joined.last as int);
    proof {
        lemma_join_state(t, block.0, block.1 - block.0);
        lemma_block_state(t, block);
    }
    if row < joined.last {
        let k: usize = row - joined.first;
        assert(block_state(t, block).bounds[k as int] == order::indices_view(
            joined.bounds@,
        )[k as int]);
        joined.bounds[k]
    } else {
        joined.text.as_str().as_bytes().len()
    }
}

/// The rows that a selection joins.
fn join_rows_for_selection(document: &Document, selection: EditorSelection) -> (rows: RowSpan)
    requires
        document.wf(),
        comment::is_valid_selection(document.bytes(), selection),
    ensures
        join_rows_of(document.bytes(), selection) == (rows.first as int, rows.last as int),
        rows.first <= rows.last < text::line_count(document.bytes()),
        rows.first <= text::row_at(document.bytes(), selection.range.start as int) <= rows.last,
        rows.first <= text::row_at(document.bytes(), selection.range.end as int) <= rows.last,
{
    let ghost t = document.bytes();
    proof {
        document.lemma_wf();
        text::lemma_row_at_monotonic(t, selection.range.start as int, selection.range.end as int);
    }
    let first = document.offset_to_point(selection.range.start).row;
    let last = document.offset_to_point(selection.range.end).row;
    if first == last {
        let last_row: usize = document.lines_len() - 1;
        if first < last_row {
            RowSpan { first, last: first + 1 }
        } else {
            RowSpan { first, last: last_row }
        }
    } else {
        RowSpan { first, last }
    }
}

/// The blocks of rows that are joined, from top to bottom.
fn find_join_blocks(document: &Document, selections: &[EditorSelection]) -> (blocks: Vec<RowSpan>)
    requires
        document.wf(),
        comment::all_valid(document.bytes(), selections@, selections@.len() as int),
    ensures
        lines::spans_view(blocks@) == join_blocks(document.bytes(), selections@),
        lines::blocks_apart(
            lines::spans_view(blocks@),
            0,
            text::line_count(document.bytes()),
        ),
        blocks@.len() <= selections@.len(),
        forall|i: int|
            #![trigger selections@[i]]
            0 <= i < selections@.len() ==> block_of(
                lines::spans_view(blocks@),
                join_rows_of(document.bytes(), selections@[i]),
                0,
            ) is Some,
{
    let ghost t = document.bytes();
    let ghost rows_seq = Seq::new(selections@.len(), |i: int| join_rows_of(t, selections@[i]));
    let mut keys: Vec<(usize, usize)> = Vec::new();
    let mut i: usize = 0;
    while i < selections.len()
        invariant
            document.wf(),
            t == document.bytes(),
            comment::all_valid(t, selections@, selections@.len() as int),
            i <= selections@.len(),
            keys@.len() == i,
            forall|k: int|
                #![trigger keys@[k]]
                0 <= k < i ==> join_rows_of(t, selections@[k]) == (
                    keys@[k].0 as int,
                    keys@[k].1 as int,
                ) && keys@[k].0 <= keys@[k].1 < text::line_count(t),
        decreases selections.len() - i,
    {
        assert(comment::is_valid_selection(t, selections@[i as int]));
        let rows = join_rows_for_selection(document, selections[i]);
        keys.push((rows.first, rows.last));
        i = i + 1;
    }
    let order = order::stable_order(&keys);
    let ghost ov = order::indices_view(order@);
    let ghost sb = lines::sorted_blocks(rows_seq);
    proof {
        assert(order::keys_view(keys@) =~= rows_seq);
        assert forall|k: int| #![trigger sb[k]] 0 <= k < sb.len() implies 0 <= sb[k].0 <= sb[k].1
            < text::line_count(t) by {
            assert(rows_seq[ov[k]] == order::keys_view(keys@)[ov[k]]);
            assert(keys@[ov[k]].0 <= keys@[ov[k]].1);
        }
        assert forall|a: int, b: int| #![trigger sb[a], sb[b]] 0 <= a < b < sb.len() implies sb[a].0
            <= sb[b].0 by {
            assert(order::key_le(rows_seq[ov[a]], rows_seq[ov[b]]));
        }
        lines::lemma_merged(sb, 0, text::line_count(t), sb.len() as int);
    }
    let mut blocks: Vec<RowSpan> = Vec::new();
    let mut n: usize = 0;
    assert(lines::spans_view(blocks@) =~= lines::merged(sb, 0, 0));
    while n < order.len()
        invariant
            n <= order@.len(),
            order@.len() == keys@.len(),
            rows_seq == order::keys_view(keys@),
            ov == order::indices_view(order@),
            ov == order::sorted_order(rows_seq, rows_seq.len() as int),
            forall|i: int| 0 <= i < order@.len() ==> #[trigger] order@[i] < keys@.len(),
            sb == lines::sorted_blocks(rows_seq),
            lines::spans_view(blocks@) == lines::merged(sb, 0, n as int),
        decreases order.len() - n,
    {
        let key = keys[order[n]];
        assert(ov[n as int] == order@[n as int]);
        assert(sb[n as int] == (key.0 as int, key.1 as int));
        let ghost before = blocks@;
        let count: usize = blocks.len();
        assert(lines::spans_view(before).len() == count);
        if count > 0 && key.0 <= blocks[count - 1].last {
            let previous = blocks[count - 1];
            assert(lines::spans_view(before).last() == (
                previous.first as int,
                previous.last as int,
            ));
            let last: usize = if previous.last >= key.1 {
                previous.last
            } else {
                key.1
            };
            blocks[count - 1] = RowSpan { first: previous.first, last };
        } else {
            proof {
                if count > 0 {
                    assert(lines::spans_view(before).last() == (
                        before[count - 1].first as int,
                        before[count - 1].last as int,
                    ));
                }
            }
            blocks.push(RowSpan { first: key.0, last: key.1 });
        }
        assert(lines::spans_view(blocks@) =~= lines::merged(sb, 0, n + 1));
        n = n + 1;
    }
    proof {
        let bv = lines::spans_view(blocks@);
        assert forall|i: int| #![trigger selections@[i]] 0 <= i < selections@.len() implies block_of(
            bv,
            join_rows_of(t, selections@[i]),
            0,
        ) is Some by {
            assert(ov.contains(i));
            let p = ov.index_of(i);
            assert(ov[p] == i);
            assert(sb[p] == rows_seq[i]);
            let k = choose|k: int|
                0 <= k < bv.len() && (#[trigger] bv[k]).0 <= sb[p].0 && sb[p].1 <= bv[k].1;
            lemma_block_of(bv, sb[p], 0, k);
        }
    }
    blocks
}

proof fn lemma_block_of(blocks: Seq<(int, int)>, rows: (int, int), from: int, k: int)
    requires
        0 <= from <= k < blocks.len(),
        blocks[k].0 <= rows.0 <= rows.1 <= blocks[k].1,
    ensures
        block_of(blocks, rows, from) is Some,
    decreases k - from,
{
    if from < k {
        lemma_block_of(blocks, rows, from + 1, k);
    }
}

proof fn lemma_block_of_found(blocks: Seq<(int, int)>, rows: (int, int), from: int)
    requires
        0 <= from,
    ensures
        block_of(blocks, rows, from) matches Some(k) ==> from <= k < blocks.len() && blocks[k].0
            <= rows.0 <= blocks[k].1 && blocks[k].0 <= rows.1 <= blocks[k].1,
    decreases blocks.len() - from,
{
    if from < blocks.len() {
        lemma_block_of_found(blocks, rows, from + 1);
    }
}

/// The joined blocks lie one after the other.
proof fn lemma_join_edits(t: Seq<u8>, blocks: Seq<(int, int)>)
    requires
        valid_utf8(t),
        lines::blocks_apart(blocks, 0, text::line_count(t)),
    ensures
        edit::edits_ordered(join_edits(t, blocks), t.len() as int),
        lines::edits_limited(join_edits(t, blocks), 3 * t.len() as int + 8),
{
    let edits = join_edits(t, blocks);
    assert forall|k: int| #![trigger edits[k]] 0 <= k < edits.len() implies 0 <= edits[k].0
        <= edits[k].1 <= t.len() && edits[k].2.len() <= 3 * t.len() + 8 by {
        assert(0 <= blocks[k].0 <= blocks[k].1 < text::line_count(t));
        lemma_block_state(t, blocks[k]);
    }
    assert forall|a: int, b: int| #![trigger edits[a], edits[b]] 0 <= a < b < edits.len() implies edits[a].1
        <= edits[b].0 by {
        assert(blocks[a].1 < blocks[b].0);
        assert(0 <= blocks[a].0 <= blocks[a].1);
        text::lemma_line_end(t, blocks[a].1);
        text::lemma_line_start_monotonic(t, blocks[a].1 + 1, blocks[b].0);
    }
}

/// Plans joining the lines of each selection, or each caret's line with the next.
pub fn plan_join_lines(text: &Rope, selections: &[EditorSelection]) -> (plan: Option<EditPlan>)
    requires
        lines::plan_fits(rope::rope_bytes(*text).len() as int, selections@.len() as int),
    ensures
        match plan {
            Some(plan) => join_plan(rope::rope_bytes(*text), selections@) == Some(
                (plan.view_edits(), plan.selections_after@),
            ),
            None => join_plan(rope::rope_bytes(*text), selections@) is None,
        },
{
    let document = Document::new(rope::rope_to_string(text));
    let ghost t = document.bytes();
    let ghost n = selections@.len() as int;
    if selections.len() == 0 || !lines::check_selections(&document, selections) {
        return None;
    }
    let blocks = find_join_blocks(&document, selections);
    let ghost bv = lines::spans_view(blocks@);
    let ghost ev = join_edits(t, bv);
    proof {
        document.lemma_wf();
        lemma_join_edits(t, bv);
        assert((n + 1) * (3 * t.len() + 8) == n * (3 * t.len() + 8) + (3 * t.len() + 8))
            by (nonlinear_arith);
        assert(0 <= n * (3 * t.len() + 8)) by (nonlinear_arith)
            requires
                0 <= n,
        ;
        edit::lemma_added(ev, 3 * t.len() as int + 8, ev.len() as int);
        assert(ev.len() * (3 * t.len() + 8) <= n * (3 * t.len() + 8)) by (nonlinear_arith)
            requires
                ev.len() <= n,
        ;
        assert(t.len() + edit::added(ev, ev.len() as int) + 2 * t.len() + 2 <= usize::MAX);
    }
    let mut total: usize = 0;
    let mut joined: Vec<JoinedBlock> = Vec::new();
    let mut edits: Vec<(Range<usize>, String)> = Vec::new();
    let mut posts: Vec<usize> = Vec::new();
    let mut more: usize = 0;
    let mut less: usize = 0;
    let mut k: usize = 0;
    while k < blocks.len()
        invariant
            document.wf(),
            t == document.bytes(),
            t == rope::rope_bytes(*text),
            n == selections@.len(),
            n > 0,
            bv == lines::spans_view(blocks@),
            bv == join_blocks(t, selections@),
            lines::blocks_apart(bv, 0, text::line_count(t)),
            ev == join_edits(t, bv),
            edit::edits_ordered(ev, t.len() as int),
            t.len() + edit::added(ev, ev.len() as int) + 2 * t.len() + 2 <= usize::MAX,
            3 * t.len() + 8 <= usize::MAX,
            text::line_count(t) <= usize::MAX,
            k <= blocks@.len(),
            total == lines::rows_total(bv, k as int),
            total <= lines::MAX_JOIN_LINES,
            joined@.len() == k,
            edits@.len() == k,
            posts@.len() == k,
            more == edit::added(ev, k as int),
            less == edit::removed(ev, k as int),
            forall|j: int|
                #![trigger joined@[j]]
                0 <= j < k ==> joined_block_wf(t, joined@[j]) && bv[j] == (
                    joined@[j].first as int,
                    joined@[j].last as int,
                ),
            forall|j: int| 0 <= j < k ==> edit::edit_view(#[trigger] edits@[j]) == ev[j],
            forall|j: int|
                #![trigger posts@[j]]
                0 <= j < k ==> posts@[j] == ev[j].0 + edit::growth(ev, j) && posts@[j] + 2
                    * t.len() + 2 <= usize::MAX,
        decreases blocks.len() - k,
    {
        let rows = blocks[k];
        assert(bv[k as int] == (rows.first as int, rows.last as int));
        assert(0 <= bv[k as int].0 <= bv[k as int].1 < text::line_count(t));
        let count: usize = rows.last - rows.first + 1;
        proof {
            assert forall|i: int| #![trigger bv[i]] 0 <= i < bv.len() implies bv[i].0 <= bv[i].1 by {}
            lines::lemma_rows_total(bv, k + 1, bv.len() as int);
            edit::lemma_removed(ev, t.len() as int, k as int);
            edit::lemma_added_monotonic(ev, k as int, ev.len() as int);
            edit::lemma_added_monotonic(ev, k + 1, ev.len() as int);
        }
        if count > lines::MAX_JOIN_LINES - total {
            return None;
        }
        total = total + count;
        let block = build_join_rewrite(&document, rows);
        let size: usize = block.text.as_str().as_bytes().len();
        edits.push((block.start..block.end, block.text.clone()));
        assert(edit::edit_view(edits@[k as int]) == ev[k as int]);
        posts.push(block.start - less + more);
        more = more + size;
        less = less + (block.end - block.start);
        joined.push(block);
        k = k + 1;
    }
    assert(edit::edits_view(edits@) =~= ev);
    let mut selections_after: Vec<EditorSelection> = Vec::new();
    let mut i: usize = 0;
    while i < selections.len()
        invariant
            document.wf(),
            valid_utf8(t),
            t == document.bytes(),
            comment::all_valid(t, selections@, selections@.len() as int),
            bv == lines::spans_view(blocks@),
            ev == join_edits(t, bv),
            3 * t.len() + 8 <= usize::MAX,
            joined@.len() == blocks@.len(),
            posts@.len() == blocks@.len(),
            forall|j: int|
                #![trigger joined@[j]]
                0 <= j < joined@.len() ==> joined_block_wf(t, joined@[j]) && bv[j] == (
                    joined@[j].first as int,
                    joined@[j].last as int,
                ),
            forall|j: int|
                #![trigger posts@[j]]
                0 <= j < posts@.len() ==> posts@[j] == ev[j].0 + edit::growth(ev, j) && posts@[j]
                    + 2 * t.len() + 2 <= usize::MAX,
            forall|i: int|
                #![trigger selections@[i]]
                0 <= i < selections@.len() ==> block_of(
                    bv,
                    join_rows_of(t, selections@[i]),
                    0,
                ) is Some,
            i <= selections@.len(),
            selections_after@.len() == i,
            forall|j: int|
                0 <= j < i ==> #[trigger] selections_after@[j] == joined_selection(
                    t,
                    bv,
                    selections@[j],
                ),
        decreases selections.len() - i,
    {
        let selection = selections[i];
        assert(comment::is_valid_selection(t, selections@[i as int]));
        let rows = join_rows_for_selection(&document, selection);
        let ghost rv = (rows.first as int, rows.last as int);
        let ghost found = block_of(bv, rv, 0)->Some_0;
        proof {
            assert(block_of(bv, join_rows_of(t, selections@[i as int]), 0) is Some);
            lemma_block_of_found(bv, rv, 0);
        }
        let mut k: usize = 0;
        while !(joined[k].first <= rows.first && rows.first <= joined[k].last && joined[k].first
            <= rows.last && rows.last <= joined[k].last)
            invariant
                k <= found < joined@.len(),
                joined@.len() == bv.len(),
                block_of(bv, rv, 0) == Some(found),
                block_of(bv, rv, k as int) == Some(found),
                rv == (rows.first as int, rows.last as int),
                forall|j: int|
                    #![trigger joined@[j]]
                    0 <= j < joined@.len() ==> bv[j] == (
                        joined@[j].first as int,
                        joined@[j].last as int,
                    ),
            decreases found - k,
        {
            proof {
                assert(bv[k as int] == (
                    joined@[k as int].first as int,
                    joined@[k as int].last as int,
                ));
                lemma_block_of_found(bv, rv, k + 1);
                assert(joined.len() == joined@.len());
            }
            k = k + 1;
        }
        proof {
            assert(bv[k as int] == (joined@[k as int].first as int, joined@[k as int].last as int));
            assert(k == found);
            assert(posts@[k as int] + 2 * t.len() + 2 <= usize::MAX);
        }
        if selection.is_empty() {
            let row = document.offset_to_point(selection.head()).row;
            let bound = find_join_bound(&joined[k], row, Ghost(t));
            selections_after.push(EditorSelection::caret(posts[k] + bound));
        } else {
            let anchor = map_join_offset(&document, selection.anchor(), &joined[k]);
            let head = map_join_offset(&document, selection.head(), &joined[k]);
            selections_after.push(
                EditorSelection::from_anchor_and_head(posts[k] + anchor, posts[k] + head),
            );
        }
        i = i + 1;
    }
    proof {
        let expected = (join_plan(t, selections@)->Some_0).1;
        assert(selections_after@ =~= expected);
    }
    Some(EditPlan { edits, selections_after })
}

} // verus!
