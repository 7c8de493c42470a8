//! What indenting and outdenting come to.

use crate::comment;
use crate::cursor::EditorSelection;
use crate::edit;
use crate::indent;
use crate::indent::TabSize;
use crate::order;
use crate::text;
use crate::text_laws;
use vstd::prelude::*;
use vstd::utf8::*;

verus! {

/// Nothing but spaces.
pub open spec fn is_spaces(a: Seq<u8>) -> bool {
    forall|i: int| 0 <= i < a.len() ==> #[trigger] a[i] == 32
}

/// One level of indentation: a tab, or as many spaces as a tab has columns.
pub open spec fn is_level(level: Seq<u8>, tab: TabSize) -> bool {
    if tab.hard_tabs {
        level == seq![9u8]
    } else {
        level.len() == tab.tab_size && is_spaces(level)
    }
}

proof fn lemma_one_row(t: Seq<u8>, selection: EditorSelection, row: int)
    requires
        comment::selection_rows(t, selection) == Some((row, row)),
    ensures
        indent::line_rows(t, seq![selection], true, 1) == seq![row],
{
    let none = Seq::<int>::empty();
    assert(indent::line_rows(t, seq![selection], true, 0) == none);
    assert(indent::with_range(none, row, row - 1) == none);
    assert(order::lower_bound(none, row, 0) == 0);
    assert(order::with_key(none, row) =~= seq![row]);
    assert(indent::with_range(none, row, row) == order::with_key(none, row));
}

/// Indenting the line of a selection puts one level before it.
#[verifier::rlimit(30)]
pub proof fn law_line_is_indented(
    x: Seq<u8>,
    line: Seq<u8>,
    y: Seq<u8>,
    selection: EditorSelection,
    tab: TabSize,
)
    requires
        text_laws::ends_row(x),
        text_laws::is_row_text(line),
        text_laws::begins_with_ending(y),
        comment::selection_rows(x + line + y, selection) == Some(
            (text_laws::feeds(x), text_laws::feeds(x)),
        ),
    ensures
        ({
            let t = x + line + y;
            let level = tab.indent_bytes();
            &&& is_level(level, tab)
            &&& edit::applied(t, indent::indent_edits(t, seq![selection], tab, true)) == x + level
                + line + y
        }),
{
    let t = x + line + y;
    let row = text_laws::feeds(x);
    let all = seq![selection];
    let level = tab.indent_bytes();
    text_laws::law_row(x, line, y, 0);
    lemma_one_row(t, selection, row);
    assert(all[0] == selection);
    assert(indent::is_sole_row(t, all, true, row, 1));
    let rows = seq![row];
    let start = x.len() as int;
    assert(indent::indent_line_keys(t, all, true, rows, 0).len() == 0);
    assert(indent::indent_line_keys(t, all, true, rows, 1) =~= seq![start]);
    let keys = seq![start];
    assert(indent::with_carets(keys, all, true, 0) == keys);
    assert(indent::with_carets(keys, all, true, 1) == keys);
    assert(keys[0] == start);
    assert(keys.contains(start));
    assert(indent::indent_edits(t, all, tab, true) =~= seq![(start, start, level)]);
    assert(t =~= x + Seq::<u8>::empty() + (line + y));
    text_laws::law_text_around_edit(x, Seq::empty(), line + y, level);
    assert(x + level + (line + y) =~= x + level + line + y);
}

/// Outdenting a line takes off one tab, or spaces up to a tab stop, and nothing else.
#[verifier::rlimit(30)]
pub proof fn law_line_is_outdented(
    x: Seq<u8>,
    gone: Seq<u8>,
    c: Seq<u8>,
    y: Seq<u8>,
    size: int,
)
    requires
        text_laws::ends_row(x),
        text_laws::is_row_text(gone + c),
        text_laws::begins_with_ending(y),
        size > 0,
        ({
            ||| gone == seq![9u8]
            ||| is_spaces(gone) && gone.len() <= size && (gone.len() == size || c.len() == 0 || c[0]
                != 32) && (gone.len() == 0 ==> c.len() == 0 || c[0] != 9)
        }),
    ensures
        ({
            let t = x + (gone + c) + y;
            edit::applied(t, indent::outdent_edits(t, seq![text_laws::feeds(x)], size, 1)) == x + c
                + y
        }),
{
    let s = gone + c;
    let t = x + s + y;
    let row = text_laws::feeds(x);
    let rows = seq![row];
    text_laws::law_row(x, s, y, 0);
    let n = gone.len() as int;
    if s.len() > 0 && s[0] == 9 {
        if n > 0 {
            assert(s[0] == gone[0]);
        } else {
            assert(s[0] == c[0]);
        }
    } else {
        if gone == seq![9u8] {
            assert(s[0] == 9);
        }
        lemma_leading(gone, c, size, 0);
    }
    assert(rows[0] == row);
    assert(indent::outdent_edits(t, rows, size, 0).len() == 0);
    let start = x.len() as int;
    if n == 0 {
        assert(indent::outdent_edits(t, rows, size, 1).len() == 0);
        assert(t =~= x + c + y);
    } else {
        assert(indent::outdent_edits(t, rows, size, 1) =~= seq![
            (start, start + n, Seq::<u8>::empty()),
        ]);
        assert(t =~= x + gone + (c + y));
        text_laws::law_text_around_edit(x, gone, c + y, Seq::empty());
        assert(x + Seq::<u8>::empty() + (c + y) =~= x + c + y);
    }
}

proof fn lemma_leading(gone: Seq<u8>, c: Seq<u8>, size: int, from: int)
    requires
        is_spaces(gone),
        0 <= from <= gone.len() <= size,
        gone.len() == size || c.len() == 0 || c[0] != 32,
    ensures
        indent::leading_spaces(gone + c, from, size) == gone.len() - from,
    decreases gone.len() - from,
{
    let s = gone + c;
    if from < gone.len() {
        assert(s[from] == gone[from]);
        lemma_leading(gone, c, size, from + 1);
    } else if from < s.len() {
        assert(s[from] == c[0]);
    }
}

/// A caret without hard tabs goes to the next tab stop: the spaces it inserts are at
/// least one and at most a tab wide, and behind them the column is a multiple of it.
pub proof fn law_caret_goes_to_tab_stop(prefix: Seq<char>, more: Seq<char>, size: int)
    requires
        size >= 1,
        forall|i: int| 0 <= i < more.len() ==> #[trigger] more[i] == ' ',
        more.len() == size - indent::visual_column(prefix, prefix.len() as int, size) % size,
    ensures
        1 <= more.len() <= size,
        indent::visual_column(prefix + more, (prefix + more).len() as int, size) % size == 0,
        indent::visual_column(prefix + more, (prefix + more).len() as int, size)
            == indent::visual_column(prefix, prefix.len() as int, size) + more.len(),
{
    let column = indent::visual_column(prefix, prefix.len() as int, size);
    lemma_same_columns(prefix, more, prefix.len() as int, size);
    lemma_space_columns(prefix, more, more.len() as int, size);
    assert(0 <= column % size < size) by (nonlinear_arith)
        requires
            size >= 1,
    ;
    let q = column / size;
    vstd::arithmetic::div_mod::lemma_fundamental_div_mod(column, size);
    vstd::arithmetic::div_mod::lemma_mod_multiples_basic(q + 1, size);
    assert((q + 1) * size == size * q + size) by (nonlinear_arith);
}

proof fn lemma_same_columns(prefix: Seq<char>, more: Seq<char>, n: int, size: int)
    requires
        0 <= n <= prefix.len(),
    ensures
        indent::visual_column(prefix + more, n, size) == indent::visual_column(prefix, n, size),
    decreases n,
{
    if n > 0 {
        lemma_same_columns(prefix, more, n - 1, size);
        assert((prefix + more)[n - 1] == prefix[n - 1]);
    }
}

proof fn lemma_space_columns(prefix: Seq<char>, more: Seq<char>, k: int, size: int)
    requires
        0 <= k <= more.len(),
        forall|i: int| 0 <= i < more.len() ==> #[trigger] more[i] == ' ',
    ensures
        indent::visual_column(prefix + more, prefix.len() + k, size) == indent::visual_column(
            prefix,
            prefix.len() as int,
            size,
        ) + k,
    decreases k,
{
    lemma_same_columns(prefix, more, prefix.len() as int, size);
    if k > 0 {
        lemma_space_columns(prefix, more, k - 1, size);
        assert((prefix + more)[prefix.len() + k - 1] == more[k - 1]);
    }
}

/// What a caret at the end of `prefix` in its row inserts: a tab, or the spaces to the
/// next tab stop.
#[verifier::rlimit(30)]
pub proof fn law_inserted_at_caret(
    x: Seq<char>,
    prefix: Seq<char>,
    y: Seq<char>,
    tab: TabSize,
)
    requires
        text_laws::ends_row(encode_utf8(x)),
        forall|i: int|
            0 <= i < encode_utf8(prefix).len() ==> #[trigger] encode_utf8(prefix)[i] != 10,
        text::is_boundary(
            encode_utf8(x + prefix + y),
            encode_utf8(x + prefix).len() as int,
        ),
    ensures
        ({
            let t = encode_utf8(x + prefix + y);
            let o = encode_utf8(x + prefix).len() as int;
            let size = if tab.tab_size == 0 {
                1
            } else {
                tab.tab_size as int
            };
            let inserted = indent::inline_tab_bytes(t, o, tab);
            &&& tab.hard_tabs ==> inserted == seq![9u8]
            &&& !tab.hard_tabs ==> is_spaces(inserted) && inserted.len() == size
                - indent::visual_column(prefix, prefix.len() as int, size) % size
        }),
{
    let t = encode_utf8(x + prefix + y);
    let o = encode_utf8(x + prefix).len() as int;
    let a = encode_utf8(x).len() as int;
    let size = indent::stop_size(tab);
    text::lemma_encode_concat(x + prefix, y);
    text::lemma_encode_concat(x, prefix);
    assert(t.take(a) =~= encode_utf8(x));
    if a > 0 {
        assert(t[a - 1] == encode_utf8(x).last());
    }
    text_laws::lemma_start_of_row(t, a);
    text::lemma_floor_boundary(t, o);
    assert forall|i: int| a <= i < o implies t[i] != 10 by {
        assert(t[i] == encode_utf8(prefix)[i - a]);
    }
    text::lemma_newlines_gap(t, a, o);
    assert(t.subrange(a, o) =~= encode_utf8(prefix));
    encode_utf8_decode_utf8(prefix);
    let column = indent::visual_column(prefix, prefix.len() as int, size);
    assert(0 <= column % size < size) by (nonlinear_arith)
        requires
            size >= 1,
    ;
}

/// The width of an indentation: a tab counts as many columns as it has, a space one,
/// and what follows none.
pub proof fn law_width_of_indentation(tabs: Seq<u8>, gaps: Seq<u8>, c: Seq<u8>, size: int)
    requires
        forall|i: int| 0 <= i < tabs.len() ==> #[trigger] tabs[i] == 9,
        is_spaces(gaps),
        c.len() == 0 || c[0] != 9 && c[0] != 32,
    ensures
        indent::indent_columns(tabs + gaps + c, 0, size) == tabs.len() * size + gaps.len(),
{
    lemma_width(tabs, gaps, c, size, 0);
}

proof fn lemma_width(tabs: Seq<u8>, gaps: Seq<u8>, c: Seq<u8>, size: int, from: int)
    requires
        forall|i: int| 0 <= i < tabs.len() ==> #[trigger] tabs[i] == 9,
        is_spaces(gaps),
        c.len() == 0 || c[0] != 9 && c[0] != 32,
        0 <= from <= tabs.len() + gaps.len(),
    ensures
        indent::indent_columns(tabs + gaps + c, from, size) == if from <= tabs.len() {
            (tabs.len() - from) * size + gaps.len()
        } else {
            gaps.len() - (from - tabs.len())
        },
    decreases tabs.len() + gaps.len() - from,
{
    let s = tabs + gaps + c;
    let n = tabs.len() as int;
    if from < n {
        assert(s[from] == tabs[from]);
        lemma_width(tabs, gaps, c, size, from + 1);
        assert((n - from) * size == (n - (from + 1)) * size + size) by (nonlinear_arith);
    } else if from < n + gaps.len() {
        assert(s[from] == gaps[from - n]);
        lemma_width(tabs, gaps, c, size, from + 1);
        assert((n - n) * size == 0) by (nonlinear_arith);
    } else {
        if from < s.len() {
            assert(s[from] == c[0]);
        }
        assert((n - n) * size == 0) by (nonlinear_arith);
    }
}

/// Without a command for blocks a selection that is no caret has its line indented too,
/// and a caret gets what leads to the next tab stop.
#[verifier::rlimit(30)]
pub proof fn law_tab_key(t: Seq<u8>, selection: EditorSelection, row: int, tab: TabSize)
    requires
        comment::selection_rows(t, selection) == Some((row, row)),
    ensures
        selection.range.start != selection.range.end ==> indent::indent_edits(
            t,
            seq![selection],
            tab,
            false,
        ) == indent::indent_edits(t, seq![selection], tab, true),
        selection.range.start == selection.range.end ==> indent::indent_edits(
            t,
            seq![selection],
            tab,
            false,
        ) == seq![
            (
                selection.range.start as int,
                selection.range.start as int,
                indent::inline_tab_bytes(t, selection.range.start as int, tab),
            ),
        ],
{
    let all = seq![selection];
    let none = Seq::<int>::empty();
    assert(all[0] == selection);
    assert(indent::line_rows(t, all, false, 0) == none);
    if selection.range.start != selection.range.end {
        lemma_one_row(t, selection, row);
        let rows = indent::line_rows(t, all, true, 1);
        assert(indent::line_rows(t, all, true, 0) == none);
        assert(indent::line_rows(t, all, false, 1) == rows);
        assert(indent::indents_row(t, all, false, row) && indent::indents_row(t, all, true, row))
            by {
            assert(indent::is_sole_row(t, all, false, row, 1));
            assert(indent::is_sole_row(t, all, true, row, 1));
        }
        let start = text::line_start(t, row);
        assert(rows[0] == row);
        assert(indent::indent_line_keys(t, all, false, rows, 0) == none);
        assert(indent::indent_line_keys(t, all, true, rows, 0) == none);
        assert(indent::indent_line_keys(t, all, false, rows, 1) == none.push(start));
        assert(indent::indent_line_keys(t, all, true, rows, 1) == none.push(start));
        let keys = none.push(start);
        assert(indent::with_carets(keys, all, false, 0) == keys);
        assert(indent::with_carets(keys, all, true, 0) == keys);
        assert(indent::with_carets(keys, all, false, 1) == keys);
        assert(indent::with_carets(keys, all, true, 1) == keys);
        assert(indent::indent_edits(t, all, tab, false) =~= indent::indent_edits(
            t,
            all,
            tab,
            true,
        ));
    } else {
        let o = selection.range.start as int;
        assert(indent::line_rows(t, all, false, 1) == none);
        assert(indent::indent_line_keys(t, all, false, none, 0) == none);
        assert(indent::with_carets(none, all, false, 0) == none);
        assert(order::lower_bound(none, o, 0) == 0);
        assert(order::with_key(none, o) =~= seq![o]);
        assert(indent::with_carets(none, all, false, 1) == order::with_key(none, o));
        assert(!none.contains(o));
        assert(indent::indent_edits(t, all, tab, false) =~= seq![
            (o, o, indent::inline_tab_bytes(t, o, tab)),
        ]);
    }
}

} // verus!
