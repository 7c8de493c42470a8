//! Tab stops and indentation.

use crate::chars;
use crate::comment;
use crate::cursor::EditorSelection;
use crate::edit;
use crate::edit::EditPlan;
use crate::line_operations as lines;
use crate::order;
use crate::rope;
use crate::text;
use crate::text::Document;
use ropey::Rope;
use std::ops::Range;
use vstd::prelude::*;
use vstd::string::*;
use vstd::utf8::*;

verus! {

#[derive(Debug, Copy, Clone, PartialEq, Eq, Structural)]
pub struct TabSize {
    /// Default is 2
    pub tab_size: usize,
    /// Set true to use `\t` as tab indent, default is false
    pub hard_tabs: bool,
}

impl Default for TabSize {
    fn default() -> (tab: Self)
        ensures
            tab.tab_size == 2,
            !tab.hard_tabs,
    {
        TabSize { tab_size: 2, hard_tabs: false }
    }
}

/// `n` spaces.
pub open spec fn spaces(n: int) -> Seq<u8> {
    Seq::new(n as nat, |i: int| 32u8)
}

/// Columns of the leading tabs and spaces among the bytes of `s` from `from`.
pub open spec fn indent_columns(s: Seq<u8>, from: int, size: int) -> int
    decreases s.len() - from,
{
    if from < 0 || from >= s.len() {
        0
    } else if s[from] == 9 {
        size + indent_columns(s, from + 1, size)
    } else if s[from] == 32 {
        1 + indent_columns(s, from + 1, size)
    } else {
        0
    }
}

proof fn lemma_indent_columns(s: Seq<u8>, from: int, size: int)
    requires
        0 <= from <= s.len(),
        0 <= size,
    ensures
        0 <= indent_columns(s, from, size) <= (s.len() - from) * (size + 1),
    decreases s.len() - from,
{
    if from < s.len() && (s[from] == 9 || s[from] == 32) {
        lemma_indent_columns(s, from + 1, size);
        assert((s.len() - from) * (size + 1) == (s.len() - from - 1) * (size + 1) + (size + 1))
            by (nonlinear_arith);
    } else {
        assert((s.len() - from) * (size + 1) >= 0) by (nonlinear_arith)
            requires
                0 <= from <= s.len(),
                0 <= size,
        ;
    }
}

/// `n` spaces.
fn repeat_space(n: usize) -> (s: String)
    ensures
        encode_utf8(s@) == spaces(n as int),
{
    let mut s = String::new();
    let mut i: usize = 0;
    proof {
        reveal_strlit(" ");
        comment::lemma_ascii_bytes(" "@);
        assert(encode_utf8(" "@) =~= seq![32u8]);
        assert(encode_utf8(Seq::<char>::empty()) =~= spaces(0));
    }
    while i < n
        invariant
            i <= n,
            encode_utf8(" "@) == seq![32u8],
            encode_utf8(s@) == spaces(i as int),
        decreases n - i,
    {
        text::push_text(&mut s, " ");
        assert(encode_utf8(s@) =~= spaces(i + 1));
        i = i + 1;
    }
    s
}

fn tab_string() -> (s: String)
    ensures
        encode_utf8(s@) == seq![9u8],
{
    proof {
        reveal_strlit("\t");
        comment::lemma_ascii_bytes("\t"@);
        assert(encode_utf8("\t"@) =~= seq![9u8]);
    }
    "\t".to_owned()
}

impl TabSize {
    /// The text of one level of indentation.
    pub open spec fn indent_bytes(self) -> Seq<u8> {
        if self.hard_tabs {
            seq![9u8]
        } else {
            spaces(self.tab_size as int)
        }
    }

    /// The text of one level of indentation.
    pub fn to_string(&self) -> (s: String)
        ensures
            encode_utf8(s@) == self.indent_bytes(),
    {
        if self.hard_tabs {
            tab_string()
        } else {
            repeat_space(self.tab_size)
        }
    }

    /// Count the indent size of the line in spaces.
    pub fn indent_count(&self, line: &str) -> (count: usize)
        requires
            indent_columns(encode_utf8(line@), 0, self.tab_size as int) <= usize::MAX,
        ensures
            count == indent_columns(encode_utf8(line@), 0, self.tab_size as int),
    {
        let s = line.as_bytes();
        let ghost size = self.tab_size as int;
        let mut count: usize = 0;
        let mut i: usize = 0;
        proof {
            lemma_indent_columns(s@, 0, size);
        }
        while i < s.len() && (s[i] == 9 || s[i] == 32)
            invariant
                i <= s@.len(),
                size == self.tab_size,
                0 <= indent_columns(s@, 0, size) <= usize::MAX,
                count + indent_columns(s@, i as int, size) == indent_columns(s@, 0, size),
            decreases s.len() - i,
        {
            proof {
                lemma_indent_columns(s@, i + 1, size);
            }
            if s[i] == 9 {
                count = count + self.tab_size;
            } else {
                count = count + 1;
            }
            i = i + 1;
        }
        count
    }
}

/// The columns of the guides in an indentation that wide: one for each level
/// that starts in it.
pub open spec fn level_columns(width: int, size: int) -> Seq<int> {
    Seq::new(((width + size - 1) / size) as nat, |i: int| i * size)
}

/// The columns of the guides of a row: those of its own indentation, and for an
/// empty row those of the row before.
pub open spec fn guide_columns(rows: Seq<Seq<u8>>, size: int, row: int) -> Seq<int>
    decreases row,
{
    if row < 0 || row >= rows.len() {
        Seq::empty()
    } else if rows[row].len() > 0 {
        level_columns(indent_columns(rows[row], 0, size), size)
    } else if row == 0 {
        Seq::empty()
    } else {
        guide_columns(rows, size, row - 1)
    }
}

/// A row that is not empty has levels, and its indentation can be counted.
pub open spec fn guides_fit(rows: Seq<Seq<u8>>, size: int) -> bool {
    forall|i: int|
        #![trigger rows[i]]
        0 <= i < rows.len() && rows[i].len() > 0 ==> size > 0 && indent_columns(rows[i], 0, size)
            <= usize::MAX
}

pub open spec fn rows_view(rows: Seq<String>) -> Seq<Seq<u8>> {
    Seq::new(rows.len(), |i: int| encode_utf8(rows[i]@))
}

proof fn lemma_level_count(width: int, size: int, k: int)
    requires
        0 < size,
        0 <= k,
        width <= k * size,
        k > 0 ==> (k - 1) * size < width,
    ensures
        0 <= width ==> (width + size - 1) / size == k,
{
    if 0 <= width {
        let over = width + size - 1 - k * size;
        assert(0 <= over < size) by (nonlinear_arith)
            requires
                over == width + size - 1 - k * size,
                0 <= width <= k * size,
                k > 0 ==> (k - 1) * size < width,
                0 <= k,
                0 < size,
        ;
        vstd::arithmetic::div_mod::lemma_fundamental_div_mod_converse(
            width + size - 1,
            size,
            k,
            over,
        );
    }
}

/// A column has a guide where a level starts there, inside the indentation.
pub proof fn law_guides_stand_at_levels(width: int, size: int, column: int)
    requires
        0 <= width,
        0 < size,
    ensures
        level_columns(width, size).contains(column) <==> 0 <= column < width && column % size == 0,
{
    let n = (width + size - 1) / size;
    let columns = level_columns(width, size);
    vstd::arithmetic::div_mod::lemma_fundamental_div_mod(width + size - 1, size);
    let rest = (width + size - 1) % size;
    assert(size * n == n * size) by (nonlinear_arith);
    vstd::arithmetic::div_mod::lemma_div_pos_is_pos(width + size - 1, size);
    if columns.contains(column) {
        let i = choose|i: int| 0 <= i < columns.len() && columns[i] == column;
        assert(0 <= i * size <= (n - 1) * size && (n - 1) * size == n * size - size)
            by (nonlinear_arith)
            requires
                0 <= i <= n - 1,
                0 < size,
        ;
        vstd::arithmetic::div_mod::lemma_mod_multiples_basic(i, size);
    }
    if 0 <= column < width && column % size == 0 {
        let i = column / size;
        vstd::arithmetic::div_mod::lemma_fundamental_div_mod(column, size);
        vstd::arithmetic::div_mod::lemma_div_pos_is_pos(column, size);
        assert(size * i == i * size) by (nonlinear_arith);
        assert(i < n) by (nonlinear_arith)
            requires
                i * size < width,
                width + size - 1 == n * size + rest,
                rest < size,
                0 < size,
        ;
        assert(columns[i] == column);
    }
}

fn collect_levels(width: usize, size: usize) -> (columns: Vec<usize>)
    requires
        size > 0,
    ensures
        order::indices_view(columns@) == level_columns(width as int, size as int),
{
    let mut columns: Vec<usize> = Vec::new();
    let mut next: Option<usize> = if width > 0 {
        Some(0)
    } else {
        None
    };
    assert(0 * size as int == 0) by (nonlinear_arith);
    while next.is_some()
        invariant
            size > 0,
            order::indices_view(columns@) =~= Seq::new(columns@.len(), |i: int| i * size as int),
            match next {
                Some(column) => column == columns@.len() * size && column < width,
                None => width <= columns@.len() * size && (columns@.len() > 0 ==> (columns@.len()
                    - 1) * size < width),
            },
        decreases
                (match next {
                    Some(column) => width - column + 1,
                    None => 0,
                }),
    {
        if let Some(column) = next {
            let ghost before = columns@;
            let ghost held = columns@.len() as int;
            columns.push(column);
            assert(columns@.drop_last() =~= before);
            assert((held + 1) * size == held * size + size) by (nonlinear_arith);
            assert forall|i: int| 0 <= i < columns@.len() implies #[trigger] columns@[i] == i
                * size as int by {
                if i < held {
                    assert(order::indices_view(columns@.drop_last())[i] == i * size as int);
                }
            }
            next = if width - column > size {
                Some(column + size)
            } else {
                None
            };
        }
    }
    proof {
        lemma_level_count(width as int, size as int, columns@.len() as int);
    }
    columns
}

/// The columns of the indent guides of rows that follow each other on screen.
pub fn indent_guide_columns(rows: &[String], tab: TabSize) -> (columns: Vec<Vec<usize>>)
    requires
        guides_fit(rows_view(rows@), tab.tab_size as int),
    ensures
        columns@.len() == rows@.len(),
        forall|row: int|
            #![trigger columns@[row]]
            0 <= row < rows@.len() ==> order::indices_view(columns@[row]@) == guide_columns(
                rows_view(rows@),
                tab.tab_size as int,
                row,
            ),
{
    let ghost rv = rows_view(rows@);
    let ghost size = tab.tab_size as int;
    let mut columns: Vec<Vec<usize>> = Vec::new();
    let mut i: usize = 0;
    while i < rows.len()
        invariant
            i <= rows@.len(),
            rv == rows_view(rows@),
            size == tab.tab_size,
            guides_fit(rv, size),
            columns@.len() == i,
            forall|row: int|
                #![trigger columns@[row]]
                0 <= row < i ==> order::indices_view(columns@[row]@) == guide_columns(
                    rv,
                    size,
                    row,
                ),
        decreases rows.len() - i,
    {
        let row = rows[i].as_str();
        assert(rv[i as int] == encode_utf8(row@));
        let own: Vec<usize> = if row.as_bytes().len() > 0 {
            collect_levels(tab.indent_count(row), tab.tab_size)
        } else if i > 0 {
            assert(guide_columns(rv, size, i as int) == guide_columns(rv, size, i - 1));
            columns[i - 1].clone()
        } else {
            Vec::new()
        };
        assert(order::indices_view(own@) =~= guide_columns(rv, size, i as int));
        columns.push(own);
        i = i + 1;
    }
    columns
}

/// How an input edits its text.
#[derive(Debug, PartialEq, Eq)]
pub enum InputMode {
    PlainText { multi_line: bool, tab: TabSize },
    AutoGrow { min_rows: usize, max_rows: usize },
    CodeEditor {
        language: String,
        multi_line: bool,
        tab: TabSize,
        indent_guides: bool,
        folding: bool,
    },
}

impl InputMode {
    /// A code editor for a language, with the default settings.
    pub fn code_editor(language: &str) -> (mode: Self)
        ensures
            mode matches InputMode::CodeEditor {
                language: own,
                multi_line,
                tab,
                indent_guides,
                folding,
            } && own@ == language@ && multi_line && tab == (TabSize {
                tab_size: 2,
                hard_tabs: false,
            }) && indent_guides && folding,
    {
        InputMode::CodeEditor {
            language: language.to_owned(),
            multi_line: true,
            tab: TabSize { tab_size: 2, hard_tabs: false },
            indent_guides: true,
            folding: true,
        }
    }

    pub fn is_code_editor(&self) -> (code: bool)
        ensures
            code == (self is CodeEditor),
    {
        match self {
            InputMode::CodeEditor { .. } => true,
            _ => false,
        }
    }

    pub open spec fn spec_is_multi_line(self) -> bool {
        match self {
            InputMode::PlainText { multi_line, .. } => multi_line,
            InputMode::AutoGrow { max_rows, .. } => max_rows > 1,
            InputMode::CodeEditor { multi_line, .. } => multi_line,
        }
    }

    pub fn is_multi_line(&self) -> (multi: bool)
        ensures
            multi == self.spec_is_multi_line(),
    {
        match self {
            InputMode::PlainText { multi_line, .. } => *multi_line,
            InputMode::AutoGrow { max_rows, .. } => *max_rows > 1,
            InputMode::CodeEditor { multi_line, .. } => *multi_line,
        }
    }

    pub fn is_single_line(&self) -> (single: bool)
        ensures
            single == !self.spec_is_multi_line(),
    {
        !self.is_multi_line()
    }

    pub open spec fn spec_is_indentable(self) -> bool {
        match self {
            InputMode::PlainText { multi_line, .. } => multi_line,
            InputMode::CodeEditor { multi_line, .. } => multi_line,
            _ => false,
        }
    }

    pub fn is_indentable(&self) -> (indentable: bool)
        ensures
            indentable == self.spec_is_indentable(),
    {
        match self {
            InputMode::PlainText { multi_line, .. } => *multi_line,
            InputMode::CodeEditor { multi_line, .. } => *multi_line,
            _ => false,
        }
    }

    pub open spec fn spec_has_indent_guides(self) -> bool {
        self matches InputMode::CodeEditor { indent_guides, multi_line, .. } && indent_guides
            && multi_line
    }

    pub fn has_indent_guides(&self) -> (guides: bool)
        ensures
            guides == self.spec_has_indent_guides(),
    {
        match self {
            InputMode::CodeEditor { indent_guides, multi_line, .. } => *indent_guides
                && *multi_line,
            _ => false,
        }
    }

    pub open spec fn spec_is_folding(self) -> bool {
        self matches InputMode::CodeEditor { folding, multi_line, .. } && folding && multi_line
    }

    pub fn is_folding(&self) -> (folds: bool)
        ensures
            folds == self.spec_is_folding(),
    {
        match self {
            InputMode::CodeEditor { folding, multi_line, .. } => *folding && *multi_line,
            _ => false,
        }
    }

    pub open spec fn spec_tab_size(self) -> TabSize {
        match self {
            InputMode::PlainText { tab, .. } => tab,
            InputMode::CodeEditor { tab, .. } => tab,
            _ => TabSize { tab_size: 2, hard_tabs: false },
        }
    }

    pub fn tab_size(&self) -> (tab: TabSize)
        ensures
            tab == self.spec_tab_size(),
    {
        match self {
            InputMode::PlainText { tab, .. } => *tab,
            InputMode::CodeEditor { tab, .. } => *tab,
            _ => TabSize { tab_size: 2, hard_tabs: false },
        }
    }
}

/// The mode with another tab size, where it has one.
pub open spec fn with_tab_size(mode: InputMode, tab: TabSize) -> InputMode {
    match mode {
        InputMode::PlainText { multi_line, .. } => InputMode::PlainText { multi_line, tab },
        InputMode::AutoGrow { min_rows, max_rows } => InputMode::AutoGrow { min_rows, max_rows },
        InputMode::CodeEditor { language, multi_line, indent_guides, folding, .. } =>
            InputMode::CodeEditor { language, multi_line, tab, indent_guides, folding },
    }
}

/// Sets the tab size of a mode that has one.
pub fn update_tab_size(mode: &mut InputMode, tab: TabSize) -> (updated: bool)
    ensures
        *final(mode) == with_tab_size(*old(mode), tab),
        updated == !(*old(mode) is AutoGrow),
{
    match mode {
        InputMode::PlainText { tab: current, .. } => {
            *current = tab;
            true
        },
        InputMode::CodeEditor { tab: current, .. } => {
            *current = tab;
            true
        },
        InputMode::AutoGrow { .. } => false,
    }
}

/// The mode with its indent guides switched, where it has them.
pub open spec fn with_indent_guides(mode: InputMode, guides: bool) -> InputMode {
    match mode {
        InputMode::CodeEditor { language, multi_line, tab, folding, .. } => InputMode::CodeEditor {
            language,
            multi_line,
            tab,
            indent_guides: guides,
            folding,
        },
        other => other,
    }
}

/// Switches the indent guides of a mode that has them.
pub fn update_indent_guides(mode: &mut InputMode, guides: bool)
    ensures
        *final(mode) == with_indent_guides(*old(mode), guides),
{
    match mode {
        InputMode::CodeEditor { indent_guides: current, .. } => {
            *current = guides;
        },
        _ => {},
    }
}

/// `s` with the rows from `first` to `last` in their places.
pub open spec fn with_range(s: Seq<int>, first: int, last: int) -> Seq<int>
    decreases last - first + 1,
{
    if last < first {
        s
    } else {
        order::with_key(with_range(s, first, last - 1), last)
    }
}

/// Whether a selection stands for its lines rather than for a caret.
pub open spec fn takes_lines(selection: EditorSelection, block: bool) -> bool {
    block || selection.range.start != selection.range.end
}

/// The rows of the line selections among the first `n`, ascending.
pub open spec fn line_rows(
    t: Seq<u8>,
    selections: Seq<EditorSelection>,
    block: bool,
    n: int,
) -> Seq<int>
    decreases n,
{
    if n <= 0 {
        Seq::empty()
    } else {
        let before = line_rows(t, selections, block, n - 1);
        let selection = selections[n - 1];
        match comment::selection_rows(t, selection) {
            Some((first, last)) if takes_lines(selection, block) => with_range(
                before,
                first,
                last,
            ),
            _ => before,
        }
    }
}

/// Whether a line selection covers `row` alone.
pub open spec fn is_sole_row(
    t: Seq<u8>,
    selections: Seq<EditorSelection>,
    block: bool,
    row: int,
    n: int,
) -> bool {
    exists|i: int|
        0 <= i < n && takes_lines(#[trigger] selections[i], block) && comment::selection_rows(
            t,
            selections[i],
        ) == Some((row, row))
}

/// Whether indenting writes into a row: not where it is empty, unless a
/// selection covers it alone.
pub open spec fn indents_row(
    t: Seq<u8>,
    selections: Seq<EditorSelection>,
    block: bool,
    row: int,
) -> bool {
    text::content_bytes(t, row).len() > 0 || is_sole_row(
        t,
        selections,
        block,
        row,
        selections.len() as int,
    )
}

/// The starts of those of the first `n` rows that indenting writes into.
pub open spec fn indent_line_keys(
    t: Seq<u8>,
    selections: Seq<EditorSelection>,
    block: bool,
    rows: Seq<int>,
    n: int,
) -> Seq<int>
    decreases n,
{
    if n <= 0 {
        Seq::empty()
    } else {
        let before = indent_line_keys(t, selections, block, rows, n - 1);
        if indents_row(t, selections, block, rows[n - 1]) {
            before.push(text::line_start(t, rows[n - 1]))
        } else {
            before
        }
    }
}

/// `keys` with the carets among the first `n` selections in their places.
pub open spec fn with_carets(
    keys: Seq<int>,
    selections: Seq<EditorSelection>,
    block: bool,
    n: int,
) -> Seq<int>
    decreases n,
{
    if n <= 0 {
        keys
    } else {
        let before = with_carets(keys, selections, block, n - 1);
        if takes_lines(selections[n - 1], block) {
            before
        } else {
            order::with_key(before, selections[n - 1].spec_head() as int)
        }
    }
}

/// The visual column after the first `n` characters of `s`.
pub open spec fn visual_column(s: Seq<char>, n: int, size: int) -> int
    decreases n,
{
    if n <= 0 {
        0
    } else {
        let before = visual_column(s, n - 1, size);
        if s[n - 1] == '\t' {
            before + (size - before % size)
        } else {
            before + 1
        }
    }
}

/// The number of columns between tab stops, at least one.
pub open spec fn stop_size(tab: TabSize) -> int {
    if tab.tab_size < 1 {
        1
    } else {
        tab.tab_size as int
    }
}

/// What a caret at `o` inserts to get to the next tab stop.
pub open spec fn inline_tab_bytes(t: Seq<u8>, o: int, tab: TabSize) -> Seq<u8> {
    if tab.hard_tabs {
        seq![9u8]
    } else {
        let start = text::line_start(t, text::row_at(t, o));
        let prefix = decode_utf8(t.subrange(start, o));
        let size = stop_size(tab);
        spaces(size - visual_column(prefix, prefix.len() as int, size) % size)
    }
}

/// The insertions of an indentation, ascending.
pub open spec fn indent_edits(
    t: Seq<u8>,
    selections: Seq<EditorSelection>,
    tab: TabSize,
    block: bool,
) -> Seq<(int, int, Seq<u8>)> {
    let n = selections.len() as int;
    let rows = line_rows(t, selections, block, n);
    let line_keys = indent_line_keys(t, selections, block, rows, rows.len() as int);
    let keys = with_carets(line_keys, selections, block, n);
    Seq::new(
        keys.len(),
        |k: int|
            (
                keys[k],
                keys[k],
                if line_keys.contains(keys[k]) {
                    tab.indent_bytes()
                } else {
                    inline_tab_bytes(t, keys[k], tab)
                },
            ),
    )
}

/// Whether each of the first `n` selections can be indented: its rows are
/// known, or its caret is on a boundary of the text.
pub open spec fn can_indent(
    t: Seq<u8>,
    selections: Seq<EditorSelection>,
    block: bool,
    n: int,
) -> bool {
    forall|i: int|
        0 <= i < n ==> if takes_lines(#[trigger] selections[i], block) {
            comment::selection_rows(t, selections[i]) is Some
        } else {
            selections[i].spec_head() <= t.len() && text::is_boundary(
                t,
                selections[i].spec_head() as int,
            )
        }
}

/// The plan that makes the edits; carets at an insertion move past it.
pub open spec fn finished_plan(
    selections: Seq<EditorSelection>,
    edits: Seq<(int, int, Seq<u8>)>,
) -> Option<(Seq<(int, int, Seq<u8>)>, Seq<EditorSelection>)> {
    if edits.len() == 0 {
        None
    } else {
        Some(
            (
                edits,
                Seq::new(
                    selections.len(),
                    |i: int|
                        edit::shifted_selection(
                            edits,
                            selections[i],
                            selections[i].range.start == selections[i].range.end,
                        ),
                ),
            ),
        )
    }
}

/// What indenting plans.
pub open spec fn indent_plan(
    t: Seq<u8>,
    selections: Seq<EditorSelection>,
    tab: TabSize,
    block: bool,
) -> Option<(Seq<(int, int, Seq<u8>)>, Seq<EditorSelection>)> {
    if selections.len() == 0 || !can_indent(t, selections, block, selections.len() as int) {
        None
    } else {
        finished_plan(selections, indent_edits(t, selections, tab, block))
    }
}

/// Number of leading spaces among the first `limit` bytes from `from`.
pub open spec fn leading_spaces(s: Seq<u8>, from: int, limit: int) -> int
    decreases s.len() - from,
{
    if from < 0 || from >= s.len() || from >= limit || s[from] != 32 {
        0
    } else {
        1 + leading_spaces(s, from + 1, limit)
    }
}

/// How much an outdent removes from the start of a line: one tab, or up to one
/// tab stop of spaces.
pub open spec fn outdent_len(s: Seq<u8>, size: int) -> int {
    if s.len() > 0 && s[0] == 9 {
        1
    } else {
        leading_spaces(s, 0, size)
    }
}

/// The removals of an outdent in the first `n` rows.
pub open spec fn outdent_edits(t: Seq<u8>, rows: Seq<int>, size: int, n: int) -> Seq<
    (int, int, Seq<u8>),
>
    decreases n,
{
    if n <= 0 {
        Seq::empty()
    } else {
        let before = outdent_edits(t, rows, size, n - 1);
        let remove = outdent_len(text::content_bytes(t, rows[n - 1]), size);
        let start = text::line_start(t, rows[n - 1]);
        if remove == 0 {
            before
        } else {
            before.push((start, start + remove, Seq::empty()))
        }
    }
}

/// What outdenting plans.
pub open spec fn outdent_plan(t: Seq<u8>, selections: Seq<EditorSelection>, tab: TabSize) -> Option<
    (Seq<(int, int, Seq<u8>)>, Seq<EditorSelection>),
> {
    let n = selections.len() as int;
    let rows = line_rows(t, selections, true, n);
    if n == 0 || !lines::rows_known(t, selections, n) {
        None
    } else {
        finished_plan(selections, outdent_edits(t, rows, stop_size(tab), rows.len() as int))
    }
}

/// The new text fits in memory whatever indenting plans.
pub open spec fn indent_fits(len: int, n: int, tab: TabSize) -> bool {
    len + (len + 1 + n) * stop_size(tab) <= usize::MAX
}

/// An ascending list of numbers below `bound` is no longer than that.
proof fn lemma_ascending_len(s: Seq<int>, bound: int)
    requires
        order::is_ascending(s),
        0 <= bound,
        forall|i: int| #![trigger s[i]] 0 <= i < s.len() ==> 0 <= s[i] < bound,
    ensures
        s.len() <= bound,
{
    if s.len() > 0 {
        lemma_ascending_at(s, s.len() - 1);
        assert(s[s.len() - 1] < bound);
    }
}

proof fn lemma_ascending_at(s: Seq<int>, i: int)
    requires
        order::is_ascending(s),
        0 <= i < s.len(),
        s[0] >= 0,
    ensures
        s[i] >= i,
    decreases i,
{
    if i > 0 {
        lemma_ascending_at(s, i - 1);
        assert(s[i - 1] < s[i]);
    }
}

/// Puts the rows from `first` to `last` in their places.
fn insert_rows(rows: &mut Vec<usize>, first: usize, last: usize, Ghost(count): Ghost<int>)
    requires
        order::is_ascending(order::indices_view(old(rows)@)),
        first <= last < count <= usize::MAX,
        forall|y: int| #[trigger] order::indices_view(old(rows)@).contains(y) ==> 0 <= y < count,
    ensures
        order::indices_view(final(rows)@) == with_range(
            order::indices_view(old(rows)@),
            first as int,
            last as int,
        ),
        order::is_ascending(order::indices_view(final(rows)@)),
        forall|y: int| #[trigger] order::indices_view(final(rows)@).contains(y) ==> 0 <= y < count,
{
    let ghost before = order::indices_view(rows@);
    let mut row: usize = first;
    while row <= last
        invariant
            first <= row <= last + 1,
            last < count <= usize::MAX,
            order::is_ascending(order::indices_view(rows@)),
            order::indices_view(rows@) == with_range(before, first as int, row - 1),
            forall|y: int| #[trigger] order::indices_view(rows@).contains(y) ==> 0 <= y < count,
        decreases last + 1 - row,
    {
        order::insert_key(rows, row);
        row = row + 1;
    }
}

/// Whether a line selection covers `row` alone.
fn check_sole_row(document: &Document, selections: &[EditorSelection], block: bool, row: usize) -> (
sole: bool)
    requires
        document.wf(),
    ensures
        sole == is_sole_row(
            document.bytes(),
            selections@,
            block,
            row as int,
            selections@.len() as int,
        ),
{
    let mut i: usize = 0;
    while i < selections.len()
        invariant
            document.wf(),
            i <= selections@.len(),
            !is_sole_row(document.bytes(), selections@, block, row as int, i as int),
        decreases selections.len() - i,
    {
        let selection = selections[i];
        if block || !selection.is_empty() {
            if let Some(rows) = comment::selection_line_range(document, selection) {
                if rows.first == row && rows.last == row {
                    assert(takes_lines(selections@[i as int], block));
                    return true;
                }
            }
        }
        i = i + 1;
    }
    false
}

proof fn lemma_visual_column(s: Seq<char>, n: int, size: int)
    requires
        0 <= n,
        size >= 1,
    ensures
        n <= visual_column(s, n, size) <= n * size,
    decreases n,
{
    if n > 0 {
        lemma_visual_column(s, n - 1, size);
        let c = visual_column(s, n - 1, size);
        assert(0 <= c % size < size) by (nonlinear_arith)
            requires
                size >= 1,
        ;
        assert((n - 1) * size + size == n * size) by (nonlinear_arith);
    } else {
        assert(n * size == 0) by (nonlinear_arith)
            requires
                n == 0,
        ;
    }
}

/// Text has no more characters than bytes.
proof fn lemma_chars_bound(s: Seq<char>)
    ensures
        s.len() <= encode_utf8(s).len(),
    decreases s.len(),
{
    if s.len() > 0 {
        lemma_chars_bound(s.drop_first());
    }
}

/// What a caret at `offset` inserts to get to the next tab stop.
fn inline_tab_text(document: &Document, offset: usize, tab: TabSize) -> (s: String)
    requires
        document.wf(),
        offset <= document.bytes().len(),
        text::is_boundary(document.bytes(), offset as int),
        document.bytes().len() * stop_size(tab) <= usize::MAX,
    ensures
        encode_utf8(s@) == inline_tab_bytes(document.bytes(), offset as int, tab),
        encode_utf8(s@).len() <= stop_size(tab),
{
    if tab.hard_tabs {
        return tab_string();
    }
    let ghost t = document.bytes();
    let size: usize = if tab.tab_size < 1 {
        1
    } else {
        tab.tab_size
    };
    proof {
        document.lemma_wf();
        text::lemma_floor_boundary(t, offset as int);
    }
    let row = document.offset_to_point(offset).row;
    let start = document.line_start_offset(row);
    proof {
        text::lemma_line_boundaries(t, row as int);
    }
    let prefix = document.slice(start, offset);
    let s = chars::chars_of(prefix.as_str());
    let mut column: usize = 0;
    let mut n: usize = 0;
    proof {
        encode_utf8_decode_utf8(prefix@);
        lemma_chars_bound(prefix@);
        assert(s@.len() <= t.len());
        assert(s@.len() * size <= t.len() * size) by (nonlinear_arith)
            requires
                s@.len() <= t.len(),
        ;
    }
    while n < s.len()
        invariant
            n <= s@.len(),
            size >= 1,
            s@.len() * size <= usize::MAX,
            column == visual_column(s@, n as int, size as int),
        decreases s.len() - n,
    {
        proof {
            lemma_visual_column(s@, n + 1, size as int);
            assert((n + 1) * size <= s@.len() * size) by (nonlinear_arith)
                requires
                    n + 1 <= s@.len(),
            ;
        }
        if s[n] == '\t' {
            column = column + (size - column % size);
        } else {
            column = column + 1;
        }
        n = n + 1;
    }
    repeat_space(size - column % size)
}

/// The plan that makes the edits.
fn finish_indent_plan(
    selections: &[EditorSelection],
    edits: Vec<(Range<usize>, String)>,
    Ghost(len): Ghost<int>,
) -> (plan: Option<EditPlan>)
    requires
        edit::edits_ordered(edit::edits_view(edits@), len),
        len + edit::added(edit::edits_view(edits@), edits@.len() as int) <= usize::MAX,
        forall|i: int|
            #![trigger selections@[i]]
            0 <= i < selections@.len() ==> selections@[i].range.start <= len
                && selections@[i].range.end <= len,
    ensures
        match plan {
            Some(plan) => finished_plan(selections@, edit::edits_view(edits@)) == Some(
                (plan.view_edits(), plan.selections_after@),
            ),
            None => finished_plan(selections@, edit::edits_view(edits@)) is None,
        },
{
    let ghost ev = edit::edits_view(edits@);
    if edits.len() == 0 {
        return None;
    }
    let mut selections_after: Vec<EditorSelection> = Vec::new();
    let mut i: usize = 0;
    while i < selections.len()
        invariant
            ev == edit::edits_view(edits@),
            edit::edits_ordered(ev, len),
            len + edit::added(ev, edits@.len() as int) <= usize::MAX,
            forall|i: int|
                #![trigger selections@[i]]
                0 <= i < selections@.len() ==> selections@[i].range.start <= len
                    && selections@[i].range.end <= len,
            i <= selections@.len(),
            selections_after@.len() == i,
            forall|k: int|
                0 <= k < i ==> #[trigger] selections_after@[k] == edit::shifted_selection(
                    ev,
                    selections@[k],
                    selections@[k].range.start == selections@[k].range.end,
                ),
        decreases selections.len() - i,
    {
        let selection = selections[i];
        selections_after.push(edit::shift_selection(&edits, selection, selection.is_empty()));
        i = i + 1;
    }
    proof {
        let expected = (finished_plan(selections@, ev)->Some_0).1;
        assert(selections_after@ =~= expected);
    }
    Some(EditPlan { edits, selections_after })
}

/// Line starts ascend with their rows.
proof fn lemma_line_keys(
    t: Seq<u8>,
    selections: Seq<EditorSelection>,
    block: bool,
    rows: Seq<int>,
    n: int,
)
    requires
        0 <= n <= rows.len(),
        order::is_ascending(rows),
        forall|i: int| #![trigger rows[i]] 0 <= i < rows.len() ==> 0 <= rows[i] < text::line_count(t),
    ensures
        order::is_ascending(indent_line_keys(t, selections, block, rows, n)),
        indent_line_keys(t, selections, block, rows, n).len() <= n,
        forall|i: int|
            #![trigger indent_line_keys(t, selections, block, rows, n)[i]]
            0 <= i < indent_line_keys(t, selections, block, rows, n).len() ==> n > 0 && 0
                <= indent_line_keys(t, selections, block, rows, n)[i] <= text::line_start(
                t,
                rows[n - 1],
            ) <= t.len(),
    decreases n,
{
    if n > 0 {
        lemma_line_keys(t, selections, block, rows, n - 1);
        let before = indent_line_keys(t, selections, block, rows, n - 1);
        let after = indent_line_keys(t, selections, block, rows, n);
        text::lemma_line_start(t, rows[n - 1]);
        if n > 1 {
            assert(rows[n - 2] < rows[n - 1]);
            text::lemma_line_end(t, rows[n - 2]);
            text::lemma_line_start_monotonic(t, rows[n - 2] + 1, rows[n - 1]);
            assert(text::line_start(t, rows[n - 2]) < text::line_start(t, rows[n - 1]));
        }
        assert forall|i: int, j: int| #![trigger after[i], after[j]] 0 <= i < j < after.len() implies after[i]
            < after[j] by {
            assert(after[i] == before[i]);
            if j < before.len() {
                assert(after[j] == before[j]);
            }
        }
    }
}

proof fn lemma_with_carets(
    keys: Seq<int>,
    selections: Seq<EditorSelection>,
    block: bool,
    len: int,
    n: int,
)
    requires
        0 <= n <= selections.len(),
        order::is_ascending(keys),
        forall|y: int| #[trigger] keys.contains(y) ==> 0 <= y <= len,
        forall|i: int|
            #![trigger selections[i]]
            0 <= i < n && !takes_lines(selections[i], block) ==> selections[i].spec_head() <= len,
    ensures
        order::is_ascending(with_carets(keys, selections, block, n)),
        with_carets(keys, selections, block, n).len() <= keys.len() + n,
        forall|y: int| #[trigger] with_carets(keys, selections, block, n).contains(y) ==> 0 <= y <= len,
        forall|y: int|
            #[trigger] with_carets(keys, selections, block, n).contains(y) ==> keys.contains(y)
                || exists|i: int|
                0 <= i < n && !takes_lines(#[trigger] selections[i], block)
                    && selections[i].spec_head() == y,
    decreases n,
{
    if n > 0 {
        lemma_with_carets(keys, selections, block, len, n - 1);
        let before = with_carets(keys, selections, block, n - 1);
        if !takes_lines(selections[n - 1], block) {
            order::lemma_with_key(before, selections[n - 1].spec_head() as int);
        }
        let after = with_carets(keys, selections, block, n);
        assert forall|y: int| #[trigger] after.contains(y) implies keys.contains(y) || exists|i: int|
            0 <= i < n && !takes_lines(#[trigger] selections[i], block)
                && selections[i].spec_head() == y by {
            if before.contains(y) && !keys.contains(y) {
                let i = choose|i: int|
                    0 <= i < n - 1 && !takes_lines(#[trigger] selections[i], block)
                        && selections[i].spec_head() == y;
                assert(!takes_lines(selections[i], block));
            } else if !before.contains(y) {
                assert(!takes_lines(selections[n - 1], block));
            }
        }
    }
}

/// Plans indenting the selected lines and every other caret to its next tab
/// stop; with `block` set, the line of each caret too.
pub fn plan_indent(
    text: &Rope,
    selections: &[EditorSelection],
    tab: TabSize,
    block: bool,
) -> (plan: Option<EditPlan>)
    requires
        lines::all_wf(selections@),
        indent_fits(rope::rope_bytes(*text).len() as int, selections@.len() as int, tab),
    ensures
        match plan {
            Some(plan) => indent_plan(rope::rope_bytes(*text), selections@, tab, block) == Some(
                (plan.view_edits(), plan.selections_after@),
            ),
            None => indent_plan(rope::rope_bytes(*text), selections@, tab, block) is None,
        },
{
    let document = Document::new(rope::rope_to_string(text));
    let ghost t = document.bytes();
    let ghost n = selections@.len() as int;
    let ghost size = stop_size(tab);
    if selections.len() == 0 {
        return None;
    }
    proof {
        document.lemma_wf();
        assert(t.len() * size <= (t.len() + 1 + n) * size) by (nonlinear_arith)
            requires
                size >= 1,
                n >= 0,
        ;
    }
    let mut rows: Vec<usize> = Vec::new();
    let mut i: usize = 0;
    assert(order::indices_view(rows@) =~= line_rows(t, selections@, block, 0));
    while i < selections.len()
        invariant
            document.wf(),
            t == document.bytes(),
            t == rope::rope_bytes(*text),
            n == selections@.len(),
            n > 0,
            lines::all_wf(selections@),
            text::line_count(t) <= usize::MAX,
            i <= selections@.len(),
            can_indent(t, selections@, block, i as int),
            order::indices_view(rows@) == line_rows(t, selections@, block, i as int),
            order::is_ascending(order::indices_view(rows@)),
            forall|y: int|
                #[trigger] order::indices_view(rows@).contains(y) ==> 0 <= y < text::line_count(t),
        decreases selections.len() - i,
    {
        let selection = selections[i];
        if block || !selection.is_empty() {
            match comment::selection_line_range(&document, selection) {
                Some(span) => {
                    proof {
                        assert(selections@[i as int].wf());
                        lines::lemma_selection_rows(t, selection);
                    }
                    insert_rows(&mut rows, span.first, span.last, Ghost(text::line_count(t)));
                },
                None => {
                    assert(takes_lines(selections@[i as int], block));
                    return None;
                },
            }
        } else {
            let head = selection.head();
            if head > document.len() || !document.is_char_boundary(head) {
                assert(!takes_lines(selections@[i as int], block));
                return None;
            }
        }
        i = i + 1;
    }
    let ghost rv = order::indices_view(rows@);
    let ghost lk = indent_line_keys(t, selections@, block, rv, rv.len() as int);
    proof {
        assert forall|k: int| #![trigger rv[k]] 0 <= k < rv.len() implies 0 <= rv[k]
            < text::line_count(t) by {
            assert(rv.contains(rv[k]));
        }
        lemma_ascending_len(rv, text::line_count(t));
        lemma_line_keys(t, selections@, block, rv, rv.len() as int);
        text::lemma_newlines_bound(t, t.len() as int);
    }
    let mut line_keys: Vec<usize> = Vec::new();
    let mut r: usize = 0;
    assert(order::indices_view(line_keys@) =~= indent_line_keys(t, selections@, block, rv, 0));
    while r < rows.len()
        invariant
            document.wf(),
            t == document.bytes(),
            rv == order::indices_view(rows@),
            r <= rows@.len(),
            order::indices_view(line_keys@) == indent_line_keys(
                t,
                selections@,
                block,
                rv,
                r as int,
            ),
        decreases rows.len() - r,
    {
        assert(rv[r as int] == rows@[r as int]);
        let row: usize = rows[r];
        if document.content_len(row) > 0 || check_sole_row(&document, selections, block, row) {
            let ghost before = line_keys@;
            line_keys.push(document.line_start_offset(row));
            assert(order::indices_view(line_keys@) =~= order::indices_view(before).push(
                text::line_start(t, row as int),
            ));
        }
        r = r + 1;
    }
    let mut keys: Vec<usize> = Vec::new();
    let mut k: usize = 0;
    while k < line_keys.len()
        invariant
            k <= line_keys@.len(),
            keys@ == line_keys@.take(k as int),
        decreases line_keys.len() - k,
    {
        assert(line_keys@.take(k + 1) =~= line_keys@.take(k as int).push(line_keys@[k as int]));
        keys.push(line_keys[k]);
        k = k + 1;
    }
    assert(keys@ =~= line_keys@);
    let mut c: usize = 0;
    while c < selections.len()
        invariant
            c <= selections@.len(),
            order::is_ascending(order::indices_view(keys@)),
            order::indices_view(keys@) == with_carets(lk, selections@, block, c as int),
        decreases selections.len() - c,
    {
        let selection = selections[c];
        if !(block || !selection.is_empty()) {
            order::insert_key(&mut keys, selection.head());
        }
        c = c + 1;
    }
    let ghost kv = order::indices_view(keys@);
    let ghost ev = indent_edits(t, selections@, tab, block);
    proof {
        assert forall|i: int|
            #![trigger selections@[i]]
            0 <= i < n && !takes_lines(selections@[i], block) implies selections@[i].spec_head()
            <= t.len() by {}
        assert forall|y: int| #[trigger] lk.contains(y) implies 0 <= y <= t.len() by {
            let i = choose|i: int| 0 <= i < lk.len() && lk[i] == y;
            assert(lk[i] == y);
        }
        lemma_with_carets(lk, selections@, block, t.len() as int, n);
    }
    let indent = tab.to_string();
    let mut edits: Vec<(Range<usize>, String)> = Vec::new();
    let mut at: usize = 0;
    let mut e: usize = 0;
    while e < keys.len()
        invariant
            document.wf(),
            t == document.bytes(),
            n == selections@.len(),
            can_indent(t, selections@, block, n),
            t.len() * stop_size(tab) <= usize::MAX,
            kv == order::indices_view(keys@),
            kv == with_carets(lk, selections@, block, n),
            lk == order::indices_view(line_keys@),
            order::is_ascending(kv),
            order::is_ascending(lk),
            forall|y: int|
                #[trigger] kv.contains(y) ==> lk.contains(y) || exists|i: int|
                    0 <= i < n && !takes_lines(#[trigger] selections@[i], block)
                        && selections@[i].spec_head() == y,
            encode_utf8(indent@) == tab.indent_bytes(),
            e <= keys@.len(),
            edits@.len() == e,
            at <= line_keys@.len(),
            forall|j: int| 0 <= j < at && e < kv.len() ==> #[trigger] lk[j] < kv[e as int],
            ev == indent_edits(t, selections@, tab, block),
            ev.len() == kv.len(),
            forall|j: int|
                0 <= j < kv.len() ==> #[trigger] ev[j] == (
                    kv[j],
                    kv[j],
                    if lk.contains(kv[j]) {
                        tab.indent_bytes()
                    } else {
                        inline_tab_bytes(t, kv[j], tab)
                    },
                ),
            forall|j: int|
                0 <= j < e ==> edit::edit_view(#[trigger] edits@[j]) == ev[j] && ev[j].2.len()
                    <= stop_size(tab),
        decreases keys.len() - e,
    {
        let key: usize = keys[e];
        assert(kv[e as int] == key);
        assert(kv.contains(key as int));
        while at < line_keys.len() && line_keys[at] < key
            invariant
                lk == order::indices_view(line_keys@),
                at <= line_keys@.len(),
                kv[e as int] == key,
                0 <= e < kv.len(),
                forall|j: int| 0 <= j < at && e < kv.len() ==> #[trigger] lk[j] < kv[e as int],
            decreases line_keys.len() - at,
        {
            assert(lk[at as int] == line_keys@[at as int]);
            at = at + 1;
        }
        let is_line = at < line_keys.len() && line_keys[at] == key;
        proof {
            if is_line {
                assert(lk[at as int] == key);
                assert(lk.contains(key as int));
            } else if lk.contains(key as int) {
                let j = choose|j: int| 0 <= j < lk.len() && lk[j] == key;
                assert(lk[j] == line_keys@[j]);
                if at < line_keys@.len() {
                    assert(lk[at as int] == line_keys@[at as int]);
                    if j > at {
                        assert(lk[at as int] < lk[j]);
                    }
                }
                assert(false);
            }
        }
        if is_line {
            edits.push((key..key, indent.clone()));
        } else {
            proof {
                let i = choose|i: int|
                    0 <= i < n && !takes_lines(#[trigger] selections@[i], block)
                        && selections@[i].spec_head() == key;
                assert(!takes_lines(selections@[i], block));
            }
            let insertion = inline_tab_text(&document, key, tab);
            edits.push((key..key, insertion));
        }
        assert(edit::edit_view(edits@[e as int]) == ev[e as int]);
        proof {
            if e + 1 < kv.len() {
                assert(kv[e as int] < kv[e + 1]);
            }
        }
        e = e + 1;
    }
    assert(edit::edits_view(edits@) =~= ev);
    proof {
        assert forall|j: int| #![trigger ev[j]] 0 <= j < ev.len() implies 0 <= ev[j].0 <= ev[j].1
            <= t.len() && ev[j].2.len() <= size by {
            assert(kv.contains(kv[j]));
            assert(edit::edit_view(edits@[j]) == ev[j]);
        }
        assert forall|a: int, b: int| #![trigger ev[a], ev[b]] 0 <= a < b < ev.len() implies ev[a].1
            <= ev[b].0 by {
            assert(kv[a] < kv[b]);
        }
        edit::lemma_added(ev, size, ev.len() as int);
        assert(ev.len() * size <= (t.len() + 1 + n) * size) by (nonlinear_arith)
            requires
                ev.len() <= t.len() + 1 + n,
                size >= 1,
        ;
        assert forall|i: int|
            #![trigger selections@[i]]
            0 <= i < selections@.len() implies selections@[i].range.start <= t.len()
            && selections@[i].range.end <= t.len() by {
            assert(takes_lines(selections@[i], block) || !takes_lines(selections@[i], block));
        }
    }
    finish_indent_plan(selections, edits, Ghost(t.len() as int))
}

proof fn lemma_leading_spaces(s: Seq<u8>, from: int, limit: int)
    requires
        0 <= from <= s.len(),
    ensures
        0 <= leading_spaces(s, from, limit) <= s.len() - from,
    decreases s.len() - from,
{
    if from < s.len() && from < limit && s[from] == 32 {
        lemma_leading_spaces(s, from + 1, limit);
    }
}

fn outdent_prefix_len(s: &[u8], size: usize) -> (len: usize)
    ensures
        len == outdent_len(s@, size as int),
        len <= s@.len(),
{
    if s.len() > 0 && s[0] == 9 {
        return 1;
    }
    let mut i: usize = 0;
    while i < s.len() && i < size && s[i] == 32
        invariant
            i <= s@.len(),
            leading_spaces(s@, 0, size as int) == i + leading_spaces(s@, i as int, size as int),
        decreases s.len() - i,
    {
        i = i + 1;
    }
    i
}

proof fn lemma_outdent_edits(t: Seq<u8>, rows: Seq<int>, size: int, n: int)
    requires
        0 <= n <= rows.len(),
        order::is_ascending(rows),
        forall|i: int| #![trigger rows[i]] 0 <= i < rows.len() ==> 0 <= rows[i] < text::line_count(t),
    ensures
        edit::edits_ordered(outdent_edits(t, rows, size, n), t.len() as int),
        lines::edits_limited(outdent_edits(t, rows, size, n), 0),
        forall|i: int|
            #![trigger outdent_edits(t, rows, size, n)[i]]
            0 <= i < outdent_edits(t, rows, size, n).len() ==> n > 0 && outdent_edits(
                t,
                rows,
                size,
                n,
            )[i].1 <= text::line_end(t, rows[n - 1]),
    decreases n,
{
    if n > 0 {
        lemma_outdent_edits(t, rows, size, n - 1);
        let before = outdent_edits(t, rows, size, n - 1);
        let after = outdent_edits(t, rows, size, n);
        let content = text::content_bytes(t, rows[n - 1]);
        lemma_leading_spaces(content, 0, size);
        text::lemma_line_end(t, rows[n - 1]);
        if n > 1 {
            assert(rows[n - 2] < rows[n - 1]);
            text::lemma_line_end(t, rows[n - 2]);
            text::lemma_line_start_monotonic(t, rows[n - 2] + 1, rows[n - 1]);
        }
        assert forall|i: int, j: int| #![trigger after[i], after[j]] 0 <= i < j < after.len() implies after[i].1
            <= after[j].0 by {
            assert(after[i] == before[i]);
            if j < before.len() {
                assert(after[j] == before[j]);
            }
        }
        assert forall|i: int| #![trigger after[i]] 0 <= i < after.len() implies 0 <= after[i].0
            <= after[i].1 <= t.len() && after[i].2.len() <= 0 by {
            if i < before.len() {
                assert(after[i] == before[i]);
            }
        }
    }
}

/// Plans removing one level of indentation from the selected lines.
pub fn plan_outdent(
    text: &Rope,
    selections: &[EditorSelection],
    tab: TabSize,
    _block: bool,
) -> (plan: Option<EditPlan>)
    requires
        lines::all_wf(selections@),
    ensures
        match plan {
            Some(plan) => outdent_plan(rope::rope_bytes(*text), selections@, tab) == Some(
                (plan.view_edits(), plan.selections_after@),
            ),
            None => outdent_plan(rope::rope_bytes(*text), selections@, tab) is None,
        },
{
    let document = Document::new(rope::rope_to_string(text));
    let ghost t = document.bytes();
    let ghost n = selections@.len() as int;
    if selections.len() == 0 {
        return None;
    }
    proof {
        document.lemma_wf();
    }
    let mut rows: Vec<usize> = Vec::new();
    let mut i: usize = 0;
    assert(order::indices_view(rows@) =~= line_rows(t, selections@, true, 0));
    while i < selections.len()
        invariant
            document.wf(),
            t == document.bytes(),
            t == rope::rope_bytes(*text),
            n == selections@.len(),
            n > 0,
            lines::all_wf(selections@),
            text::line_count(t) <= usize::MAX,
            i <= selections@.len(),
            lines::rows_known(t, selections@, i as int),
            order::indices_view(rows@) == line_rows(t, selections@, true, i as int),
            order::is_ascending(order::indices_view(rows@)),
            forall|y: int|
                #[trigger] order::indices_view(rows@).contains(y) ==> 0 <= y < text::line_count(t),
        decreases selections.len() - i,
    {
        let selection = selections[i];
        match comment::selection_line_range(&document, selection) {
            Some(span) => {
                proof {
                    assert(selections@[i as int].wf());
                    lines::lemma_selection_rows(t, selection);
                }
                insert_rows(&mut rows, span.first, span.last, Ghost(text::line_count(t)));
            },
            None => {
                return None;
            },
        }
        i = i + 1;
    }
    let ghost rv = order::indices_view(rows@);
    let size: usize = if tab.tab_size < 1 {
        1
    } else {
        tab.tab_size
    };
    let mut edits: Vec<(Range<usize>, String)> = Vec::new();
    let mut r: usize = 0;
    assert(edit::edits_view(edits@) =~= outdent_edits(t, rv, size as int, 0));
    while r < rows.len()
        invariant
            document.wf(),
            t == document.bytes(),
            rv == order::indices_view(rows@),
            t.len() <= usize::MAX,
            r <= rows@.len(),
            edit::edits_view(edits@) == outdent_edits(t, rv, size as int, r as int),
        decreases rows.len() - r,
    {
        assert(rv[r as int] == rows@[r as int]);
        let row: usize = rows[r];
        let content = document.line_content(row);
        let remove = outdent_prefix_len(content.as_str().as_bytes(), size);
        if remove > 0 {
            let start = document.line_start_offset(row);
            proof {
                text::lemma_line_end(t, row as int);
                assert(encode_utf8(Seq::<char>::empty()) =~= Seq::<u8>::empty());
            }
            comment::push_edit(&mut edits, start, start + remove, String::new());
        }
        r = r + 1;
    }
    proof {
        assert forall|k: int| #![trigger rv[k]] 0 <= k < rv.len() implies 0 <= rv[k]
            < text::line_count(t) by {
            assert(rv.contains(rv[k]));
        }
        lemma_outdent_edits(t, rv, size as int, rv.len() as int);
        let ev = edit::edits_view(edits@);
        edit::lemma_added(ev, 0, ev.len() as int);
        assert forall|i: int|
            #![trigger selections@[i]]
            0 <= i < selections@.len() implies selections@[i].range.start <= t.len()
            && selections@[i].range.end <= t.len() by {
            assert(comment::selection_rows(t, selections@[i]) is Some);
        }
    }
    finish_indent_plan(selections, edits, Ghost(t.len() as int))
}

} // verus!
