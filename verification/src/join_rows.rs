//! What joining lines does to the rows of a text.

use crate::edit;
use crate::join;
use crate::line_operations as lines;
use crate::rows;
use crate::text;
use vstd::prelude::*;
use vstd::utf8::*;

verus! {

/// A character of more than one byte has none of the ASCII ones.
proof fn lemma_wide_scalar(c: u32)
    by (bit_vector)
    requires
        0x80 <= c <= 0x10ffff,
    ensures
        leading_byte_width_2(c) >= 0x80,
        leading_byte_width_3(c) >= 0x80,
        leading_byte_width_4(c) >= 0x80,
        last_continuation_byte(c) >= 0x80,
        second_last_continuation_byte(c) >= 0x80,
        third_last_continuation_byte(c) >= 0x80,
{
}

proof fn lemma_narrow_scalar(c: u32)
    by (bit_vector)
    requires
        c < 0x80,
    ensures
        leading_byte_width_1(c) == c,
{
}

/// The bytes of one character: itself where it is ASCII, else none that is.
proof fn lemma_scalar(c: char, x: char)
    requires
        (x as int) < 0x80,
    ensures
        encode_scalar(c as u32).len() > 0,
        c == x ==> encode_scalar(c as u32) == seq![x as u8],
        c != x ==> forall|i: int|
            #![trigger encode_scalar(c as u32)[i]]
            0 <= i < encode_scalar(c as u32).len() ==> encode_scalar(c as u32)[i] != x as u8,
{
    let u = c as u32;
    char_is_scalar(c);
    if u < 0x80 {
        lemma_narrow_scalar(u);
        assert(leading_byte_width_1(u) as int == c as int);
        assert(x as u8 as int == x as int);
        if c == x {
            assert(encode_scalar(u) =~= seq![x as u8]);
        }
    } else {
        lemma_wide_scalar(u);
    }
}

/// Text without an ASCII character has no such byte, and the other way round.
proof fn lemma_without(s: Seq<char>, x: char)
    requires
        (x as int) < 0x80,
    ensures
        (forall|i: int| 0 <= i < s.len() ==> s[i] != x) <==> (forall|i: int|
            0 <= i < encode_utf8(s).len() ==> encode_utf8(s)[i] != x as u8),
    decreases s.len(),
{
    if s.len() > 0 {
        lemma_scalar(s[0], x);
        let first = encode_scalar(s[0] as u32);
        let rest = s.drop_first();
        lemma_without(rest, x);
        let all = encode_utf8(s);
        assert(all == first + encode_utf8(rest));
        if forall|i: int| 0 <= i < s.len() ==> s[i] != x {
            assert forall|i: int| 0 <= i < rest.len() implies rest[i] != x by {
                assert(s[i + 1] != x);
            }
            assert forall|i: int| 0 <= i < all.len() implies all[i] != x as u8 by {
                if i >= first.len() {
                    assert(all[i] == encode_utf8(rest)[i - first.len()]);
                } else {
                    assert(s[0] != x);
                    assert(all[i] == first[i]);
                }
            }
        }
        if forall|i: int| 0 <= i < all.len() ==> all[i] != x as u8 {
            assert forall|i: int| 0 <= i < encode_utf8(rest).len() implies encode_utf8(rest)[i]
                != x as u8 by {
                assert(all[first.len() + i] == encode_utf8(rest)[i]);
            }
            assert forall|i: int| 0 <= i < s.len() implies s[i] != x by {
                if i == 0 {
                    assert(all[0] == first[0]);
                } else {
                    assert(s[i] == rest[i - 1]);
                }
            }
        }
    }
}

/// Rows have no line feed.
proof fn lemma_row_chars(t: Seq<u8>, row: int)
    requires
        valid_utf8(t),
        0 <= row,
    ensures
        forall|i: int| 0 <= i < join::row_chars(t, row).len() ==> join::row_chars(t, row)[i] != '\n',
{
    text::lemma_line_boundaries(t, row);
    let start = text::line_start(t, row);
    let content = text::content_bytes(t, row);
    text::lemma_valid_subrange(t, start, start + content.len());
    decode_utf8_encode_utf8(content);
    rows::lemma_content(t, row);
    lemma_without(join::row_chars(t, row), '\n');
}

proof fn lemma_trimmed(s: Seq<char>)
    ensures
        join::trimmed(s).len() <= s.len(),
        forall|i: int| 0 <= i < join::trimmed(s).len() ==> join::trimmed(s)[i] == s[i],
    decreases s.len(),
{
    if s.len() > 0 && join::is_join_whitespace(s.last()) {
        lemma_trimmed(s.drop_last());
        let kept = join::trimmed(s);
        assert forall|i: int| 0 <= i < kept.len() implies kept[i] == s[i] by {
            assert(s.drop_last()[i] == s[i]);
        }
    }
}

/// Rows that are joined have no line feed.
proof fn lemma_joined_chars(t: Seq<u8>, first: int, k: int)
    requires
        valid_utf8(t),
        0 <= first,
        0 <= k,
    ensures
        forall|i: int|
            0 <= i < join::join_state(t, first, k).text.len() ==> join::join_state(
                t,
                first,
                k,
            ).text[i] != '\n',
    decreases k,
{
    lemma_row_chars(t, first + k);
    if k > 0 {
        lemma_joined_chars(t, first, k - 1);
        let before = join::join_state(t, first, k - 1).text;
        let c = join::row_chars(t, first + k);
        lemma_trimmed(before);
        let base = join::joint(before);
        let after = join::join_state(t, first, k).text;
        let lead = join::lead_from(c, 0);
        lemma_lead(c, 0);
        if lead < c.len() {
            assert(after == base + c.skip(lead));
            assert forall|i: int| 0 <= i < after.len() implies after[i] != '\n' by {
                if i >= base.len() {
                    assert(after[i] == c[i - base.len() + lead]);
                } else {
                    assert(after[i] == base[i]);
                    if i < join::trimmed(before).len() {
                        assert(join::trimmed(before)[i] == before[i]);
                    }
                }
            }
        }
    }
}

proof fn lemma_lead(s: Seq<char>, from: int)
    requires
        0 <= from <= s.len(),
    ensures
        from <= join::lead_from(s, from) <= s.len(),
    decreases s.len() - from,
{
    if from < s.len() && join::is_join_whitespace(s[from]) {
        lemma_lead(s, from + 1);
    }
}

proof fn lemma_last_byte(s: Seq<char>)
    requires
        s.len() > 0,
        s.last() != '\r',
    ensures
        encode_utf8(s).len() > 0 && encode_utf8(s).last() != 13,
{
    let init = s.drop_last();
    let last = seq![s.last()];
    assert(s =~= init + last);
    text::lemma_encode_concat(init, last);
    lemma_scalar(s.last(), '\r');
    assert(last.drop_first().len() == 0);
    assert(encode_utf8(last.drop_first()) =~= Seq::empty());
    assert(encode_utf8(last) =~= encode_scalar(s.last() as u32));
    assert(encode_utf8(s).last() == encode_utf8(last).last());
}

/// Number of rows that joining the blocks from the `m`-th on takes away.
pub open spec fn joined_away(blocks: Seq<(int, int)>, m: int) -> int
    decreases blocks.len() - m,
{
    if m < 0 || m >= blocks.len() {
        0
    } else {
        blocks[m].1 - blocks[m].0 + joined_away(blocks, m + 1)
    }
}

/// What `row` reads once the blocks from the `m`-th on are joined.
pub open spec fn joined_content(t: Seq<u8>, blocks: Seq<(int, int)>, row: int, m: int) -> Seq<u8>
    decreases blocks.len() - m,
{
    if m < 0 || m >= blocks.len() || row < blocks[m].0 {
        text::content_bytes(t, row)
    } else if row == blocks[m].0 {
        encode_utf8(join::block_state(t, blocks[m]).text)
    } else {
        joined_content(t, blocks, row + (blocks[m].1 - blocks[m].0), m + 1)
    }
}

/// The blocks from the `m`-th on leave a row each.
proof fn lemma_joined_away(t: Seq<u8>, blocks: Seq<(int, int)>, m: int)
    requires
        rows::are_blocks(t, blocks),
        0 <= m < blocks.len(),
    ensures
        0 <= joined_away(blocks, m) < text::line_count(t) - blocks[m].0,
    decreases blocks.len() - m,
{
    assert(0 <= blocks[m].0 <= blocks[m].1 < text::line_count(t));
    if m + 1 < blocks.len() {
        lemma_joined_away(t, blocks, m + 1);
        assert(blocks[m].1 < blocks[m + 1].0);
    } else {
        assert(joined_away(blocks, m + 1) == 0);
    }
}

/// The blocks from the `m`-th on are joined.
spec fn is_partly_joined(t: Seq<u8>, cur: Seq<u8>, blocks: Seq<(int, int)>, m: int) -> bool {
    &&& text::line_count(cur) == text::line_count(t) - joined_away(blocks, m)
    &&& m >= blocks.len() ==> cur == t
    &&& m < blocks.len() ==> forall|row: int|
        #![trigger text::line_start(cur, row)]
        0 <= row <= blocks[m].0 ==> text::line_start(cur, row) == text::line_start(t, row)
    &&& forall|row: int|
        #![trigger text::content_bytes(cur, row)]
        0 <= row < text::line_count(cur) ==> text::content_bytes(cur, row) == joined_content(
            t,
            blocks,
            row,
            m,
        )
}

/// Rows up to a block whose text changes start where they did.
proof fn lemma_starts_up_to(t: Seq<u8>, block: (int, int), new: Seq<u8>, row: int)
    requires
        0 <= row <= block.0 <= block.1 < text::line_count(t),
    ensures
        ({
            let range = lines::block_range(t, block);
            text::line_start(edit::replaced(t, (range.0, range.1, new)), row) == text::line_start(
                t,
                row,
            )
        }),
{
    let range = lines::block_range(t, block);
    let after = edit::replaced(t, (range.0, range.1, new));
    let s = text::line_start(t, row);
    text::lemma_line_start(t, row);
    text::lemma_line_start(t, block.0);
    text::lemma_line_start_monotonic(t, row, block.0);
    assert(forall|i: int| 0 <= i < range.0 ==> after[i] == t[i]);
    rows::lemma_newlines_same(t, after, s);
    rows::lemma_row_starts(after, row, s);
}

/// No joined text ends in a carriage return.
pub open spec fn joins_plainly(t: Seq<u8>, blocks: Seq<(int, int)>) -> bool {
    forall|i: int|
        #![trigger blocks[i]]
        0 <= i < blocks.len() ==> {
            let joined = join::block_state(t, blocks[i]).text;
            joined.len() > 0 ==> joined.last() != '\r'
        }
}

/// One more block is joined.
proof fn lemma_join_step(t: Seq<u8>, cur: Seq<u8>, blocks: Seq<(int, int)>, m: int)
    requires
        valid_utf8(t),
        rows::are_blocks(t, blocks),
        joins_plainly(t, blocks),
        0 < m <= blocks.len(),
        is_partly_joined(t, cur, blocks, m),
    ensures
        is_partly_joined(
            t,
            edit::replaced(cur, join::join_edits(t, blocks)[m - 1]),
            blocks,
            m - 1,
        ),
{
    let block = blocks[m - 1];
    let (f, l) = block;
    let joined = join::block_state(t, block).text;
    let new = encode_utf8(joined);
    assert(0 <= f <= l < text::line_count(t));
    lemma_joined_chars(t, f, l - f);
    lemma_without(joined, '\n');
    if joined.len() > 0 {
        lemma_last_byte(joined);
    } else {
        assert(new =~= Seq::empty());
    }
    if m < blocks.len() {
        lemma_joined_away(t, blocks, m);
        assert(blocks[m - 1].1 < blocks[m].0);
        assert(text::content_bytes(cur, l) == text::content_bytes(t, l));
        assert(text::line_start(cur, f) == text::line_start(t, f));
        assert(text::line_start(cur, l) == text::line_start(t, l));
    } else {
        assert(joined_away(blocks, m) == 0);
    }
    let range = lines::block_range(t, block);
    assert(lines::block_range(cur, block) == range);
    let next = edit::replaced(cur, (range.0, range.1, new));
    assert(join::join_edits(t, blocks)[m - 1] == (range.0, range.1, new));
    rows::lemma_one_row(cur, f, l, new);
    assert(joined_away(blocks, m - 1) == l - f + joined_away(blocks, m));
    assert forall|row: int|
        #![trigger text::line_start(next, row)]
        0 <= row <= f implies text::line_start(next, row) == text::line_start(t, row) by {
        lemma_starts_up_to(cur, block, new, row);
        assert(text::line_start(cur, row) == text::line_start(t, row));
    }
    assert forall|row: int|
        #![trigger text::content_bytes(next, row)]
        0 <= row < text::line_count(next) implies text::content_bytes(next, row)
        == joined_content(t, blocks, row, m - 1) by {
        if row < f {
            assert(text::content_bytes(next, row) == text::content_bytes(cur, row));
        } else if row > f {
            assert(text::content_bytes(next, row) == text::content_bytes(cur, row + (l - f)));
        }
    }
}

/// The blocks before the `m`-th are joined, from the last to the first.
proof fn lemma_all_joined(t: Seq<u8>, cur: Seq<u8>, blocks: Seq<(int, int)>, m: int)
    requires
        valid_utf8(t),
        rows::are_blocks(t, blocks),
        joins_plainly(t, blocks),
        0 <= m <= blocks.len(),
        is_partly_joined(t, cur, blocks, m),
    ensures
        is_partly_joined(t, edit::applied(cur, join::join_edits(t, blocks).take(m)), blocks, 0),
    decreases m,
{
    let edits = join::join_edits(t, blocks);
    if m > 0 {
        lemma_join_step(t, cur, blocks, m);
        lemma_all_joined(t, edit::replaced(cur, edits[m - 1]), blocks, m - 1);
        assert(edits.take(m).drop_last() =~= edits.take(m - 1));
        assert(edits.take(m).last() == edits[m - 1]);
    } else {
        assert(edits.take(0).len() == 0);
    }
}

/// Joining blocks of rows leaves one row in the place of each, which reads the
/// joined text, and every other row.
pub proof fn law_joined_rows(t: Seq<u8>, blocks: Seq<(int, int)>)
    requires
        valid_utf8(t),
        rows::are_blocks(t, blocks),
        joins_plainly(t, blocks),
    ensures
        ({
            let after = edit::applied(t, join::join_edits(t, blocks));
            &&& text::line_count(after) == text::line_count(t) - joined_away(blocks, 0)
            &&& forall|row: int|
                #![trigger text::content_bytes(after, row)]
                0 <= row < text::line_count(after) ==> text::content_bytes(after, row)
                    == joined_content(t, blocks, row, 0)
        }),
{
    let m = blocks.len() as int;
    lemma_all_joined(t, t, blocks, m);
    assert(join::join_edits(t, blocks).take(m) =~= join::join_edits(t, blocks));
}

} // verus!
