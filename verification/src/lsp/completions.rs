//! Completions: what is offered, and the edits that accepting one makes.

use crate::chars;
use crate::edit;
use crate::lsp::document_links::{byte_range, find_byte_range};
use crate::lsp::inlay_hints::{TextEdit, Tooltip};
use crate::lsp::items;
use crate::lsp::position::TextRange;
use crate::lsp::ranking;
use crate::lsp::ranking::RankKey;
use crate::motion;
use crate::order;
use crate::rope;
use crate::state::InputState;
use crate::text;
use crate::text::Document;
use crate::transaction;
use ropey::Rope;
use std::ops::Range;
use vstd::prelude::*;
use vstd::utf8::*;

verus! {

pub const MAX_COMPLETION_ITEMS: usize = 5_000;

#[derive(Debug, Copy, Clone, PartialEq, Eq, Structural)]
pub enum CompletionTriggerKind {
    Invoked,
    TriggerCharacter,
    TriggerForIncompleteCompletions,
}

/// Why completions are asked for.
#[derive(Debug, Clone, PartialEq, Eq)]
pub struct CompletionContext {
    pub trigger_kind: CompletionTriggerKind,
    pub trigger_character: Option<String>,
}

/// Which of two ranges an accepted completion replaces.
#[derive(Debug, Copy, Clone, PartialEq, Eq, Structural)]
pub enum CompletionInsertMode {
    Insert,
    Replace,
}

/// How the lines of an inserted text are indented.
#[derive(Debug, Copy, Clone, PartialEq, Eq, Structural)]
pub enum InsertTextMode {
    AsIs,
    AdjustIndentation,
}

/// The edit that a completion is.
#[derive(Debug, Clone, PartialEq, Eq)]
pub enum CompletionTextEdit {
    Edit { range: TextRange, new_text: String },
    InsertAndReplace { insert: TextRange, replace: TextRange, new_text: String },
}

/// What can be inserted.
#[derive(Debug, Clone, PartialEq, Eq)]
pub struct CompletionItem {
    pub label: String,
    /// Shown right behind the label.
    pub label_detail: Option<String>,
    pub label_description: Option<String>,
    pub detail: Option<String>,
    pub documentation: Option<Tooltip>,
    pub deprecated: bool,
    pub preselect: bool,
    pub filter_text: Option<String>,
    pub sort_text: Option<String>,
    pub insert_text: Option<String>,
    pub is_snippet: bool,
    pub insert_text_mode: Option<InsertTextMode>,
    pub text_edit: Option<CompletionTextEdit>,
    pub additional_text_edits: Vec<TextEdit>,
    pub commit_characters: Vec<String>,
    /// The rest of the item, as the server wrote it.
    pub payload: Option<String>,
}

impl CompletionItem {
    /// A completion of which no more is known than its label.
    pub fn labelled(label: &str) -> (item: Self)
        ensures
            item.label@ == label@,
            item == (CompletionItem {
                label: item.label,
                label_detail: None,
                label_description: None,
                detail: None,
                documentation: None,
                deprecated: false,
                preselect: false,
                filter_text: None,
                sort_text: None,
                insert_text: None,
                is_snippet: false,
                insert_text_mode: None,
                text_edit: None,
                additional_text_edits: item.additional_text_edits,
                commit_characters: item.commit_characters,
                payload: None,
            }),
            item.additional_text_edits@.len() == 0,
            item.commit_characters@.len() == 0,
    {
        CompletionItem {
            label: label.to_owned(),
            label_detail: None,
            label_description: None,
            detail: None,
            documentation: None,
            deprecated: false,
            preselect: false,
            filter_text: None,
            sort_text: None,
            insert_text: None,
            is_snippet: false,
            insert_text_mode: None,
            text_edit: None,
            additional_text_edits: Vec::new(),
            commit_characters: Vec::new(),
            payload: None,
        }
    }
}

/// The text that the query is held against.
pub open spec fn filter_of(item: CompletionItem) -> Seq<char> {
    match item.filter_text {
        Some(text) => text@,
        None => item.label@,
    }
}

/// The text that is inserted where the item is no edit.
pub open spec fn insertion_of(item: CompletionItem) -> Seq<char> {
    match item.insert_text {
        Some(text) => text@,
        None => item.label@,
    }
}

/// By what an item with the score is ordered.
pub open spec fn rank_of(item: CompletionItem, score: int) -> ranking::RankModel {
    ranking::RankModel {
        score,
        sort_key: chars::lowercase(
            match item.sort_text {
                Some(text) => text@,
                None => item.label@,
            },
        ),
        label_key: chars::lowercase(item.label@),
    }
}

/// The ones of the first `n` items that the query fits, and by what they are
/// ordered.
pub open spec fn fitting(items: Seq<CompletionItem>, query: Seq<char>, n: int) -> (
    Seq<int>,
    Seq<ranking::RankModel>,
)
    decreases n,
{
    if n <= 0 {
        (Seq::empty(), Seq::empty())
    } else {
        let (indices, ranks) = fitting(items, query, n - 1);
        match ranking::query_match(query, filter_of(items[n - 1])) {
            Some((score, _)) => (indices.push(n - 1), ranks.push(rank_of(items[n - 1], score))),
            None => (indices, ranks),
        }
    }
}

/// The first item from `from` on that is to be selected.
pub open spec fn preselected(items: Seq<CompletionItem>, from: int) -> int
    decreases items.len() - from,
{
    if from >= items.len() {
        0
    } else if items[from].preselect {
        from
    } else {
        preselected(items, from + 1)
    }
}

/// The items that the word at the end of the query fits, in the order in which
/// they are offered.
pub open spec fn ranked_items(items: Seq<CompletionItem>, raw_query: Seq<char>) -> Seq<
    CompletionItem,
> {
    let total = if items.len() < MAX_COMPLETION_ITEMS {
        items.len() as int
    } else {
        MAX_COMPLETION_ITEMS as int
    };
    let (indices, ranks) = fitting(items, ranking::query_fragment(raw_query), total);
    items::picked(
        items,
        items::picked(indices, ranking::rank_order(ranks, ranks.len() as int)),
    )
}

proof fn lemma_fitting(items: Seq<CompletionItem>, query: Seq<char>, n: int)
    requires
        0 <= n <= items.len(),
    ensures
        fitting(items, query, n).0.len() == fitting(items, query, n).1.len(),
        items::are_distinct(fitting(items, query, n).0, n),
    decreases n,
{
    if n > 0 {
        lemma_fitting(items, query, n - 1);
    }
}

/// The items that the query fits in the order in which they are offered, and
/// the one that is selected.
pub fn rank_completion_items(items: Vec<CompletionItem>, raw_query: &str) -> (ranked: (
    Vec<CompletionItem>,
    usize,
))
    ensures
        ranked.0@ == ranked_items(items@, raw_query@),
        ranked.1 == preselected(ranked.0@, 0),
{
    let query = ranking::completion_query_fragment(raw_query);
    let ghost all = items@;
    let total: usize = if items.len() < MAX_COMPLETION_ITEMS {
        items.len()
    } else {
        MAX_COMPLETION_ITEMS
    };
    let mut indices: Vec<usize> = Vec::new();
    let mut keys: Vec<RankKey> = Vec::new();
    let mut i: usize = 0;
    while i < total
        invariant
            all == items@,
            i <= total <= all.len(),
            order::indices_view(indices@) =~= fitting(all, query@, i as int).0,
            ranking::ranks_view(keys@) =~= fitting(all, query@, i as int).1,
            forall|k: int| 0 <= k < indices@.len() ==> #[trigger] indices@[k] < total,
        decreases total - i,
    {
        let item = &items[i];
        let candidate = match &item.filter_text {
            Some(text) => text,
            None => &item.label,
        };
        let sort_text = match &item.sort_text {
            Some(text) => text,
            None => &item.label,
        };
        match ranking::completion_match(query.as_str(), candidate.as_str()) {
            Some((score, _)) => {
                indices.push(i);
                keys.push(
                    RankKey {
                        score,
                        sort_key: chars::to_lowercase(sort_text.as_str()),
                        label_key: chars::to_lowercase(item.label.as_str()),
                    },
                );
            },
            None => {},
        }
        i = i + 1;
    }
    let ghost chosen = order::indices_view(indices@);
    let ghost ranks = ranking::ranks_view(keys@);
    proof {
        lemma_fitting(all, query@, total as int);
        ranking::law_rank_order(ranks, ranks.len() as int);
        assert(ranks.len() == keys@.len());
        assert(chosen.len() == indices@.len());
    }
    let sorted = ranking::order_by_rank(&keys);
    let ghost sorted_view = order::indices_view(sorted@);
    let mut picks: Vec<usize> = Vec::new();
    let mut k: usize = 0;
    while k < sorted.len()
        invariant
            k <= sorted@.len(),
            sorted@.len() == indices@.len(),
            chosen == order::indices_view(indices@),
            sorted_view == order::indices_view(sorted@),
            forall|j: int| 0 <= j < sorted@.len() ==> #[trigger] sorted@[j] < indices@.len(),
            picks@.len() == k,
            forall|j: int|
                0 <= j < k ==> #[trigger] picks@[j] == indices@[sorted@[j] as int],
        decreases sorted.len() - k,
    {
        picks.push(indices[sorted[k]]);
        k = k + 1;
    }
    proof {
        let view = order::indices_view(picks@);
        assert(view =~= items::picked(chosen, sorted_view)) by {
            assert forall|j: int| 0 <= j < view.len() implies #[trigger] view[j]
                == chosen[sorted_view[j]] by {
                assert(picks@[j] == indices@[sorted@[j] as int]);
                assert(sorted_view[j] == sorted@[j]);
            }
        }
        assert forall|a: int, b: int|
            #![trigger view[a], view[b]]
            0 <= a < b < view.len() implies view[a] != view[b] by {
            assert(view[a] == chosen[sorted_view[a]]);
            assert(view[b] == chosen[sorted_view[b]]);
            assert(sorted_view[a] != sorted_view[b]);
            if sorted_view[a] < sorted_view[b] {
                assert(chosen[sorted_view[a]] != chosen[sorted_view[b]]);
            } else {
                assert(chosen[sorted_view[b]] != chosen[sorted_view[a]]);
            }
        }
        assert forall|a: int| #![trigger view[a]] 0 <= a < view.len() implies 0 <= view[a]
            < all.len() by {
            assert(view[a] == chosen[sorted_view[a]]);
            assert(0 <= sorted_view[a] < chosen.len());
        }
    }
    let ranked = items::pick(items, &picks);
    let selected: usize = find_preselected(&ranked);
    (ranked, selected)
}

fn find_preselected(items: &Vec<CompletionItem>) -> (index: usize)
    ensures
        index == preselected(items@, 0),
{
    let mut i: usize = 0;
    while i < items.len()
        invariant
            i <= items@.len(),
            preselected(items@, 0) == preselected(items@, i as int),
        decreases items.len() - i,
    {
        if items[i].preselect {
            return i;
        }
        i = i + 1;
    }
    0
}

/// The start of the word that ends at the cursor.
pub open spec fn typed_start(t: Seq<u8>, cursor: int) -> int {
    chars::word_start(t, text::floor_boundary(t, cursor))
}

/// The start of the word that ends at the cursor.
pub fn completion_word_start(document: &Document, cursor: usize) -> (start: usize)
    requires
        document.wf(),
    ensures
        start == typed_start(document.bytes(), cursor as int),
        start <= cursor,
        start <= document.bytes().len(),
        text::is_boundary(document.bytes(), start as int),
{
    let ghost t = document.bytes();
    let held = document.as_str();
    let mut start: usize = document.clip_left(cursor);
    proof {
        document.lemma_wf();
        text::lemma_floor_boundary(t, cursor as int);
    }
    let bytes = document.as_bytes();
    while start > 0 && chars::check_word_character(chars::read_char_before(held, start))
        invariant
            document.wf(),
            t == document.bytes(),
            encode_utf8(held@) == t,
            bytes@ == t,
            start <= cursor,
            start <= t.len(),
            text::is_boundary(t, start as int),
            chars::word_start(t, text::floor_boundary(t, cursor as int)) == chars::word_start(
                t,
                start as int,
            ),
        decreases start,
    {
        proof {
            text::lemma_floor_boundary(t, start - 1);
        }
        start = document.clip_left(start - 1);
    }
    start
}

/// Why completions are asked for after a change: as the provider says, with a
/// list that was incomplete taken into account; or because an open menu lost
/// what was typed.
pub open spec fn context_for_menu(
    context: Option<CompletionContext>,
    menu_open: bool,
    menu_incomplete: bool,
    new_text: Seq<char>,
) -> Option<CompletionContext> {
    match context {
        Some(context) => if menu_incomplete && context.trigger_kind is Invoked {
            Some(
                CompletionContext {
                    trigger_kind: CompletionTriggerKind::TriggerForIncompleteCompletions,
                    trigger_character: None,
                },
            )
        } else {
            Some(context)
        },
        None => if menu_open && new_text.len() == 0 {
            Some(
                CompletionContext {
                    trigger_kind: if menu_incomplete {
                        CompletionTriggerKind::TriggerForIncompleteCompletions
                    } else {
                        CompletionTriggerKind::Invoked
                    },
                    trigger_character: None,
                },
            )
        } else {
            None
        },
    }
}

pub fn completion_context_for_open_menu(
    context: Option<CompletionContext>,
    menu_open: bool,
    menu_incomplete: bool,
    new_text: &str,
) -> (result: Option<CompletionContext>)
    ensures
        result == context_for_menu(context, menu_open, menu_incomplete, new_text@),
{
    match context {
        Some(context) => {
            if menu_incomplete && context.trigger_kind == CompletionTriggerKind::Invoked {
                return Some(
                    CompletionContext {
                        trigger_kind: CompletionTriggerKind::TriggerForIncompleteCompletions,
                        trigger_character: None,
                    },
                );
            }
            Some(context)
        },
        None => {
            if menu_open && chars::chars_of(new_text).len() == 0 {
                let trigger_kind = if menu_incomplete {
                    CompletionTriggerKind::TriggerForIncompleteCompletions
                } else {
                    CompletionTriggerKind::Invoked
                };
                return Some(CompletionContext { trigger_kind, trigger_character: None });
            }
            None
        },
    }
}

/// The part of the text that a completion replaces, and what it inserts.
pub open spec fn primary_edit(
    t: Seq<u8>,
    trigger_range: (int, int),
    item: CompletionItem,
    mode: CompletionInsertMode,
) -> (int, int, Seq<char>) {
    match item.text_edit {
        Some(CompletionTextEdit::Edit { range, new_text }) => (
            byte_range(t, range).0,
            byte_range(t, range).1,
            new_text@,
        ),
        Some(CompletionTextEdit::InsertAndReplace { insert, replace, new_text }) => {
            let range = if mode is Insert {
                insert
            } else {
                replace
            };
            (byte_range(t, range).0, byte_range(t, range).1, new_text@)
        },
        None => (trigger_range.0, trigger_range.1, insertion_of(item)),
    }
}

/// The part of the text that a completion replaces, and what it inserts.
pub fn primary_completion_edit(
    document: &Document,
    trigger_range: &Range<usize>,
    item: &CompletionItem,
    insert_mode: CompletionInsertMode,
) -> (edit: (Range<usize>, String))
    requires
        document.wf(),
    ensures
        (edit.0.start as int, edit.0.end as int, edit.1@) == primary_edit(
            document.bytes(),
            (trigger_range.start as int, trigger_range.end as int),
            *item,
            insert_mode,
        ),
{
    match &item.text_edit {
        Some(CompletionTextEdit::Edit { range, new_text }) => (
            Range {
                start: document.position_to_offset(&range.start),
                end: document.position_to_offset(&range.end),
            },
            new_text.clone(),
        ),
        Some(CompletionTextEdit::InsertAndReplace { insert, replace, new_text }) => {
            let range = match insert_mode {
                CompletionInsertMode::Insert => insert,
                CompletionInsertMode::Replace => replace,
            };
            (
                Range {
                    start: document.position_to_offset(&range.start),
                    end: document.position_to_offset(&range.end),
                },
                new_text.clone(),
            )
        },
        None => {
            let new_text = match &item.insert_text {
                Some(text) => text.clone(),
                None => item.label.clone(),
            };
            (Range { start: trigger_range.start, end: trigger_range.end }, new_text)
        },
    }
}

/// The end of the blanks and tabs from `from` on, at most `end`.
pub open spec fn blanks_end(t: Seq<u8>, from: int, end: int) -> int
    decreases end - from,
{
    if from >= end || from < 0 || from >= t.len() || (t[from] != 32 && t[from] != 9) {
        from
    } else {
        blanks_end(t, from + 1, end)
    }
}

/// The blanks and tabs at the start of the row of the cursor, up to the cursor.
pub open spec fn indentation_at(t: Seq<u8>, cursor: int) -> Seq<u8> {
    let end = if cursor < t.len() {
        cursor
    } else {
        t.len() as int
    };
    let start = text::line_start(t, text::row_at(t, end));
    if text::is_boundary(t, end) {
        t.subrange(start, blanks_end(t, start, end))
    } else {
        Seq::empty()
    }
}

/// The blanks and tabs at the start of the row of the cursor, up to the cursor.
pub fn completion_line_indentation(document: &Document, cursor: usize) -> (indentation: String)
    requires
        document.wf(),
    ensures
        encode_utf8(indentation@) == indentation_at(document.bytes(), cursor as int),
{
    let ghost t = document.bytes();
    let bytes = document.as_bytes();
    let end: usize = if cursor < bytes.len() {
        cursor
    } else {
        bytes.len()
    };
    proof {
        document.lemma_wf();
    }
    if !document.is_char_boundary(end) {
        assert(encode_utf8(Seq::<char>::empty()) =~= Seq::<u8>::empty());
        let empty = String::new();
        assert(empty@ =~= Seq::<char>::empty());
        return empty;
    }
    let row: usize = document.offset_to_point(end).row;
    let start: usize = document.line_start_offset(row);
    proof {
        text::lemma_line_boundaries(t, row as int);
        text::lemma_floor_boundary(t, end as int);
        text::lemma_row_at(t, end as int);
    }
    let mut stop: usize = start;
    while stop < end && (bytes[stop] == 32 || bytes[stop] == 9)
        invariant
            start <= stop <= end <= t.len(),
            bytes@ == t,
            valid_utf8(t),
            text::is_boundary(t, stop as int),
            blanks_end(t, start as int, end as int) == blanks_end(t, stop as int, end as int),
        decreases end - stop,
    {
        proof {
            text::lemma_boundary_after_ascii(t, stop as int);
        }
        stop = stop + 1;
    }
    document.slice(start, stop)
}

/// The line ending that the text uses first from `from` on.
#[derive(Debug, Copy, Clone, PartialEq, Eq, Structural)]
pub enum LineEnding {
    Lf,
    CrLf,
    Cr,
}

pub open spec fn first_line_ending(t: Seq<u8>, from: int) -> LineEnding
    decreases t.len() - from,
{
    if from < 0 || from >= t.len() {
        LineEnding::Lf
    } else if t[from] == 13 {
        if from + 1 < t.len() && t[from + 1] == 10 {
            LineEnding::CrLf
        } else {
            LineEnding::Cr
        }
    } else if t[from] == 10 {
        LineEnding::Lf
    } else {
        first_line_ending(t, from + 1)
    }
}

/// The line ending that the text uses first, or a line feed.
pub fn completion_document_line_ending(document: &Document) -> (ending: LineEnding)
    ensures
        ending == first_line_ending(document.bytes(), 0),
{
    let bytes = document.as_bytes();
    let mut i: usize = 0;
    while i < bytes.len()
        invariant
            bytes@ == document.bytes(),
            i <= bytes@.len(),
            first_line_ending(bytes@, 0) == first_line_ending(bytes@, i as int),
        decreases bytes.len() - i,
    {
        if bytes[i] == 13 {
            if i + 1 < bytes.len() && bytes[i + 1] == 10 {
                return LineEnding::CrLf;
            }
            return LineEnding::Cr;
        }
        if bytes[i] == 10 {
            return LineEnding::Lf;
        }
        i = i + 1;
    }
    LineEnding::Lf
}

impl LineEnding {
    pub open spec fn text(self) -> Seq<char> {
        match self {
            LineEnding::Lf => seq!['\n'],
            LineEnding::CrLf => seq!['\r', '\n'],
            LineEnding::Cr => seq!['\r'],
        }
    }

    pub fn as_str(self) -> (ending: &'static str)
        ensures
            ending@ == self.text(),
    {
        proof {
            reveal_strlit("\n");
            reveal_strlit("\r\n");
            reveal_strlit("\r");
            assert("\n"@ =~= seq!['\n']);
            assert("\r\n"@ =~= seq!['\r', '\n']);
            assert("\r"@ =~= seq!['\r']);
        }
        match self {
            LineEnding::Lf => "\n",
            LineEnding::CrLf => "\r\n",
            LineEnding::Cr => "\r",
        }
    }
}

/// Whether the lines of an inserted text are indented like the row.
pub fn completion_adjusts_indentation(mode: Option<InsertTextMode>) -> (adjusts: bool)
    ensures
        adjusts == (mode != Some(InsertTextMode::AsIs)),
{
    match mode {
        Some(mode) => mode != InsertTextMode::AsIs,
        None => true,
    }
}

/// What was typed since the completion was triggered.
pub open spec fn trigger_range(start: Option<usize>, response_offset: usize, cursor: usize) -> Option<
    (int, int),
> {
    let start = match start {
        Some(start) => start,
        None => response_offset,
    };
    if cursor >= start {
        Some((start as int, cursor as int))
    } else {
        None
    }
}

/// What was typed since the completion was triggered.
pub fn completion_trigger_range(
    trigger_start_offset: Option<usize>,
    response_offset: usize,
    current_cursor: usize,
) -> (range: Option<Range<usize>>)
    ensures
        match range {
            Some(range) => trigger_range(trigger_start_offset, response_offset, current_cursor)
                == Some((range.start as int, range.end as int)),
            None => trigger_range(trigger_start_offset, response_offset, current_cursor) is None,
        },
{
    let start: usize = match trigger_start_offset {
        Some(start) => start,
        None => response_offset,
    };
    if current_cursor >= start {
        Some(Range { start, end: current_cursor })
    } else {
        None
    }
}

pub open spec fn optional_len(s: Option<String>) -> int {
    match s {
        Some(s) => chars::byte_len(s@),
        None => 0,
    }
}

/// The number of bytes that are shown of an item.
pub open spec fn display_width(item: CompletionItem) -> int {
    chars::byte_len(item.label@) + optional_len(item.label_detail) + optional_len(
        item.label_description,
    ) + optional_len(item.detail)
}

fn count_bytes(s: &Option<String>) -> (len: u128)
    ensures
        len == optional_len(*s),
        len <= usize::MAX,
{
    match s {
        Some(s) => s.as_str().as_bytes().len() as u128,
        None => 0,
    }
}

/// The number of bytes that are shown of an item.
pub fn completion_item_display_width(item: &CompletionItem) -> (width: u128)
    ensures
        width == display_width(*item),
{
    let label: usize = item.label.as_str().as_bytes().len();
    label as u128 + count_bytes(&item.label_detail) + count_bytes(&item.label_description)
        + count_bytes(&item.detail)
}

/// The last of the widest among the first `n` items.
pub open spec fn widest(items: Seq<CompletionItem>, n: int) -> int
    decreases n,
{
    if n <= 1 {
        0
    } else {
        let before = widest(items, n - 1);
        if display_width(items[n - 1]) >= display_width(items[before]) {
            n - 1
        } else {
            before
        }
    }
}

/// The last of the widest items.
pub fn widest_item(items: &Vec<CompletionItem>) -> (index: usize)
    ensures
        index == widest(items@, items@.len() as int),
{
    let mut best: usize = 0;
    let mut i: usize = 1;
    while i < items.len()
        invariant
            1 <= i,
            i <= items@.len() || items@.len() == 0,
            items@.len() > 0 ==> best == widest(items@, i as int) && best < items@.len(),
            items@.len() == 0 ==> best == 0,
        decreases items.len() - i,
    {
        if completion_item_display_width(&items[i]) >= completion_item_display_width(&items[best]) {
            best = i;
        }
        i = i + 1;
    }
    best
}

/// Whether the character that accepted a completion is inserted behind it: it
/// is one character, and neither ends the inserted text nor follows it.
pub open spec fn inserts_commit(
    t: Seq<u8>,
    cursor: int,
    completion: Seq<char>,
    commit: Seq<char>,
) -> bool {
    commit.len() == 1 && !(completion.len() > 0 && completion.last() == commit[0]) && !(cursor
        < t.len() && text::is_boundary(t, cursor) && chars::char_at(t, cursor) == commit[0])
}

/// Whether the character that accepted a completion is inserted behind it.
pub fn should_insert_commit_character(
    document: &Document,
    cursor: usize,
    completion_text: &str,
    character: &str,
) -> (insert: bool)
    requires
        document.wf(),
    ensures
        insert == inserts_commit(
            document.bytes(),
            cursor as int,
            completion_text@,
            character@,
        ),
{
    let commit = chars::chars_of(character);
    if commit.len() != 1 {
        return false;
    }
    let inserted = chars::chars_of(completion_text);
    if inserted.len() > 0 && inserted[inserted.len() - 1] == commit[0] {
        return false;
    }
    if cursor < document.len() && document.is_char_boundary(cursor) {
        let (next, _) = chars::read_char(document.as_str(), cursor);
        return next != commit[0];
    }
    true
}

/// Every edit of an accepted completion, the primary one last.
pub open spec fn completion_edits(
    t: Seq<u8>,
    item: CompletionItem,
    primary: (int, int, Seq<u8>),
) -> Seq<(int, int, Seq<u8>)> {
    Seq::new(
        item.additional_text_edits@.len(),
        |i: int|
            (
                byte_range(t, item.additional_text_edits@[i].range).0,
                byte_range(t, item.additional_text_edits@[i].range).1,
                encode_utf8(item.additional_text_edits@[i].new_text@),
            ),
    ).push(primary)
}

/// The editor still holds what a completion was accepted for.
pub open spec fn is_unmoved(state: InputState, requested: Rope, cursor: usize) -> bool {
    state.primary().spec_head() == cursor && state.bytes() == rope::rope_bytes(requested)
}

/// The edits of an accepted completion, of which the caret follows the last.
pub open spec fn completion_owners(n: nat) -> Seq<Option<usize>> {
    Seq::new(
        n,
        |i: int|
            if i == n - 1 {
                Some(0usize)
            } else {
                None
            },
    )
}

/// What became of an accepted completion.
#[derive(Debug, Copy, Clone, PartialEq, Eq, Structural)]
pub enum Acceptance {
    /// The text or the cursor is another than it was accepted for.
    Moved,
    /// Nothing can be replaced there.
    Refused,
    /// Every edit was made.
    Complete,
    /// The edits do not go together: only the primary one was made.
    PrimaryOnly,
}

/// What accepting a completion does: every edit of it, or the primary one where
/// they do not go together; nothing where the editor has moved on.
pub open spec fn is_accepted(
    before: InputState,
    after: InputState,
    unmoved: bool,
    item: CompletionItem,
    own: (int, int, Seq<u8>),
    outcome: Acceptance,
) -> bool {
    let all = completion_edits(before.bytes(), item, own);
    if !unmoved {
        outcome is Moved && after == before
    } else if transaction::are_applicable(before.bytes(), edit::sorted_edits(all)) {
        outcome is Complete && transaction::is_made(
            before,
            after,
            all,
            completion_owners(all.len()),
            true,
        )
    } else {
        &&& outcome is PrimaryOnly || outcome is Refused
        &&& transaction::is_made(
            before,
            after,
            seq![own],
            completion_owners(1),
            outcome is PrimaryOnly,
        )
    }
}

/// What the character that accepted a completion does to the text behind it.
pub open spec fn is_committed(
    before: InputState,
    after: InputState,
    completion_text: Seq<char>,
    character: Seq<char>,
    inserted: bool,
) -> bool {
    let cursor = before.primary().spec_head() as int;
    if inserts_commit(before.bytes(), cursor, completion_text, character) {
        transaction::is_made(
            before,
            after,
            seq![(cursor, cursor, encode_utf8(character))],
            completion_owners(1),
            inserted,
        )
    } else {
        !inserted && after == before
    }
}

/// Whether the character that accepted a completion comes to stand behind it.
pub open spec fn commit_fits(
    before: InputState,
    completion_text: Seq<char>,
    character: Seq<char>,
) -> bool {
    let cursor = before.primary().spec_head() as int;
    inserts_commit(before.bytes(), cursor, completion_text, character)
        && transaction::are_applicable(
        before.bytes(),
        edit::sorted_edits(seq![(cursor, cursor, encode_utf8(character))]),
    )
}

/// What inserting a text at the cursor does.
pub open spec fn is_inserted(before: InputState, after: InputState, inserted: Seq<char>) -> bool {
    let cursor = before.primary().spec_head() as int;
    let edits = seq![(cursor, cursor, encode_utf8(inserted))];
    transaction::is_made(
        before,
        after,
        edits,
        completion_owners(1),
        transaction::are_applicable(before.bytes(), edit::sorted_edits(edits)),
    )
}

impl InputState {
    /// Makes the edits of an accepted completion, while the editor holds what it
    /// was accepted for. `primary` is the edit of the item with the text as it
    /// is to be inserted. The caret comes to stand behind that text.
    pub fn accept_completion(
        &mut self,
        requested: &Rope,
        cursor: usize,
        item: &CompletionItem,
        primary: (Range<usize>, String),
    ) -> (outcome: Acceptance)
        requires
            old(self).wf(),
            old(self).text_version < usize::MAX,
        ensures
            final(self).wf(),
            is_accepted(
                *old(self),
                *final(self),
                is_unmoved(*old(self), *requested, cursor),
                *item,
                edit::edit_view(primary),
                outcome,
            ),
    {
        if self.cursor() != cursor || !self.has_text(requested) {
            return Acceptance::Moved;
        }
        let ghost own = edit::edit_view(primary);
        let ghost all = completion_edits(self.bytes(), *item, own);
        let document = self.document();
        let (edits, owners) = collect_edits(&document, item, &primary);
        proof {
            assert(owners@[owners@.len() - 1] == Some(0usize));
            motion::lemma_carets_behind(
                edit::edits_view(edits@),
                owners@,
                self.all_selections().len() as int,
            );
        }
        if self.make_cursor_edits(edits, owners) {
            return Acceptance::Complete;
        }
        let mut single: Vec<(Range<usize>, String)> = Vec::new();
        single.push(primary);
        let mut owner: Vec<Option<usize>> = Vec::new();
        owner.push(Some(0));
        proof {
            assert(edit::edits_view(single@) =~= seq![own]);
            assert(owner@ =~= completion_owners(1));
            assert(owner@[0] == Some(0usize));
            motion::lemma_carets_behind(
                edit::edits_view(single@),
                owner@,
                self.all_selections().len() as int,
            );
        }
        if self.make_cursor_edits(single, owner) {
            Acceptance::PrimaryOnly
        } else {
            Acceptance::Refused
        }
    }

    /// Inserts the character that accepted a completion behind it, where it is
    /// not there yet.
    pub fn insert_commit_character(&mut self, completion_text: &str, character: &str) -> (inserted:
        bool)
        requires
            old(self).wf(),
            old(self).text_version < usize::MAX,
        ensures
            final(self).wf(),
            is_committed(*old(self), *final(self), completion_text@, character@, inserted),
    {
        let cursor: usize = self.cursor();
        let document = self.document();
        if !should_insert_commit_character(&document, cursor, completion_text, character) {
            return false;
        }
        let mut single: Vec<(Range<usize>, String)> = Vec::new();
        single.push((Range { start: cursor, end: cursor }, character.to_owned()));
        let mut owner: Vec<Option<usize>> = Vec::new();
        owner.push(Some(0));
        proof {
            assert(edit::edits_view(single@) =~= seq![
                (cursor as int, cursor as int, encode_utf8(character@)),
            ]);
            assert(owner@ =~= completion_owners(1));
            assert(owner@[0] == Some(0usize));
            motion::lemma_carets_behind(
                edit::edits_view(single@),
                owner@,
                self.all_selections().len() as int,
            );
        }
        self.make_cursor_edits(single, owner)
    }

    /// Inserts what was suggested at the cursor.
    pub fn accept_inline_completion(&mut self, suggestion: Option<&str>) -> (accepted: bool)
        requires
            old(self).wf(),
            old(self).text_version < usize::MAX,
        ensures
            final(self).wf(),
            accepted == (suggestion is Some),
            suggestion is None ==> *final(self) == *old(self),
            suggestion is Some ==> is_inserted(
                *old(self),
                *final(self),
                (suggestion->Some_0)@,
            ),
    {
        match suggestion {
            Some(text) => {
                let cursor: usize = self.cursor();
                let mut single: Vec<(Range<usize>, String)> = Vec::new();
                single.push((Range { start: cursor, end: cursor }, text.to_owned()));
                let mut owner: Vec<Option<usize>> = Vec::new();
                owner.push(Some(0));
                proof {
                    assert(edit::edits_view(single@) =~= seq![
                        (cursor as int, cursor as int, encode_utf8(text@)),
                    ]);
                    assert(owner@ =~= completion_owners(1));
                    assert(owner@[0] == Some(0usize));
                    motion::lemma_carets_behind(
                        edit::edits_view(single@),
                        owner@,
                        self.all_selections().len() as int,
                    );
                }
                self.make_cursor_edits(single, owner);
                true
            },
            None => false,
        }
    }
}

/// Every edit of an accepted completion, the primary one last and followed by
/// the caret.
fn collect_edits(document: &Document, item: &CompletionItem, primary: &(Range<usize>, String)) -> (collected:
    (Vec<(Range<usize>, String)>, Vec<Option<usize>>))
    requires
        document.wf(),
    ensures
        edit::edits_view(collected.0@) == completion_edits(
            document.bytes(),
            *item,
            edit::edit_view(*primary),
        ),
        collected.1@ == completion_owners(collected.0@.len()),
        collected.0@.len() == item.additional_text_edits@.len() + 1,
{
    let mut edits: Vec<(Range<usize>, String)> = Vec::new();
    let mut owners: Vec<Option<usize>> = Vec::new();
    let ghost expected = completion_edits(document.bytes(), *item, edit::edit_view(*primary));
    let mut i: usize = 0;
    while i < item.additional_text_edits.len()
        invariant
            document.wf(),
            i <= item.additional_text_edits@.len(),
            edits@.len() == i,
            owners@.len() == i,
            expected == completion_edits(document.bytes(), *item, edit::edit_view(*primary)),
            forall|k: int| 0 <= k < i ==> edit::edit_view(#[trigger] edits@[k]) == expected[k],
            forall|k: int| 0 <= k < i ==> #[trigger] owners@[k] is None,
        decreases item.additional_text_edits.len() - i,
    {
        let more = &item.additional_text_edits[i];
        edits.push((find_byte_range(document, &more.range), more.new_text.clone()));
        owners.push(None);
        i = i + 1;
    }
    edits.push((Range { start: primary.0.start, end: primary.0.end }, primary.1.clone()));
    owners.push(Some(0));
    assert(edit::edits_view(edits@) =~= expected);
    assert(owners@ =~= completion_owners(edits@.len()));
    (edits, owners)
}

} // verus!
