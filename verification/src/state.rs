//! The state of one editor.

use crate::cursor::{EditorSelection, Selection};
use crate::folding::FoldRange;
use crate::indent;
use crate::indent::{InputMode, TabSize};
use crate::lsp::Lsp;
use crate::multi_cursor as cursors;
use crate::order;
use crate::pairs;
use crate::pairs::EditorLanguageConfiguration;
use crate::rope;
use crate::snippet_session::SnippetSession;
use crate::text;
use crate::text::Document;
use ropey::Rope;
use vstd::prelude::*;
use vstd::utf8::*;

verus! {

/// What a run of "select next occurrence" commands looks for.
pub struct OccurrenceSession {
    pub query: String,
    pub match_case: bool,
    pub whole_word: bool,
    pub text_version: usize,
    pub last_match: Option<Selection>,
}

/// The selections around one edit, kept for undo and redo.
pub struct SelectionHistoryEntry {
    pub version: usize,
    pub before: Vec<EditorSelection>,
    pub after: Vec<EditorSelection>,
}

/// The text of an editor with its selections and what belongs to them.
pub struct InputState {
    pub text: Rope,
    pub selected_range: Selection,
    pub selection_reversed: bool,
    pub secondary_selections: Vec<EditorSelection>,
    pub mode: InputMode,
    pub disabled: bool,
    pub language_configuration: EditorLanguageConfiguration,
    /// Counts the changes of the text.
    pub text_version: usize,
    pub occurrence_session: Option<OccurrenceSession>,
    pub selection_history: Vec<SelectionHistoryEntry>,
    pub fold_candidates: Vec<FoldRange>,
    pub folded_ranges: Vec<FoldRange>,
    pub snippet_session: Option<SnippetSession>,
    pub lsp: Lsp,
}

/// Everything but the selections, the sessions that depend on them and what
/// language servers told is the same.
pub open spec fn same_text(a: InputState, b: InputState) -> bool {
    &&& a.text == b.text
    &&& a.mode == b.mode
    &&& a.disabled == b.disabled
    &&& a.language_configuration == b.language_configuration
    &&& a.text_version == b.text_version
    &&& a.selection_history == b.selection_history
    &&& a.fold_candidates == b.fold_candidates
    &&& a.folded_ranges == b.folded_ranges
}

/// Everything but the selections and the sessions that depend on them is the same.
pub open spec fn same_document(a: InputState, b: InputState) -> bool {
    same_text(a, b) && a.lsp == b.lsp
}

/// What replacing the selections does to what language servers told: linked
/// editing ends, and parameter hints close.
pub open spec fn is_reselected(before: Lsp, after: Lsp) -> bool {
    &&& after == (Lsp {
        linked_editing_generation: crate::lsp::next_generation(before.linked_editing_generation),
        linked_editing_ranges: after.linked_editing_ranges,
        linked_editing_word_pattern: None,
        linked_editing_regex: None,
        linked_editing_pending: false,
        signature_help_popover: None,
        signature_help_generation: crate::lsp::next_generation(before.signature_help_generation),
        ..before
    })
    &&& after.linked_editing_ranges@.len() == 0
}

/// The text stays, and so does what language servers told unless the selections
/// were replaced.
pub open spec fn keeps_text(before: InputState, after: InputState, reselected: bool) -> bool {
    &&& same_text(before, after)
    &&& if reselected {
        is_reselected(before.lsp, after.lsp)
    } else {
        after.lsp == before.lsp
    }
}

impl InputState {
    /// The UTF-8 bytes of the text.
    pub open spec fn bytes(&self) -> Seq<u8> {
        rope::rope_bytes(self.text)
    }

    pub open spec fn primary(&self) -> EditorSelection {
        EditorSelection { range: self.selected_range, reversed: self.selection_reversed }
    }

    /// Every selection, the primary one first.
    pub open spec fn all_selections(&self) -> Seq<EditorSelection> {
        seq![self.primary()] + self.secondary_selections@
    }

    /// Every selection ends on boundaries of the text.
    pub open spec fn wf(&self) -> bool {
        forall|i: int|
            #![trigger self.all_selections()[i]]
            0 <= i < self.all_selections().len() ==> cursors::is_on_boundaries(
                self.bytes(),
                self.all_selections()[i],
            )
    }

    /// An editor that holds `text`, with a caret at its start.
    pub fn new(text: &str, mode: InputMode) -> (state: Self)
        ensures
            state.bytes() == encode_utf8(text@),
            state.all_selections() == seq![crate::cursor::spec_caret(0)],
            state.mode == mode,
            !state.disabled,
            state.text_version == 0,
            state.occurrence_session is None,
            state.selection_history@.len() == 0,
            state.fold_candidates@.len() == 0,
            state.folded_ranges@.len() == 0,
            state.snippet_session is None,
            state.language_configuration@ == pairs::empty_language(),
            state.lsp.hints_wf(),
            state.wf(),
    {
        let state = InputState {
            text: rope::rope_from_str(text),
            selected_range: Selection::new(0, 0),
            selection_reversed: false,
            secondary_selections: Vec::new(),
            mode,
            disabled: false,
            language_configuration: EditorLanguageConfiguration::new(),
            text_version: 0,
            occurrence_session: None,
            selection_history: Vec::new(),
            fold_candidates: Vec::new(),
            folded_ranges: Vec::new(),
            snippet_session: None,
            lsp: Lsp::default(),
        };
        assert(state.all_selections() =~= seq![crate::cursor::spec_caret(0)]);
        state
    }

    /// A snapshot of the text with its rows.
    pub fn document(&self) -> (document: Document)
        ensures
            document.wf(),
            document.bytes() == self.bytes(),
    {
        Document::new(rope::rope_to_string(&self.text))
    }

    /// The active end of the primary selection.
    pub fn cursor(&self) -> (offset: usize)
        ensures
            offset == self.primary().spec_head(),
    {
        self.primary_editor_selection().head()
    }

    pub fn primary_editor_selection(&self) -> (selection: EditorSelection)
        ensures
            selection == self.primary(),
    {
        EditorSelection { range: self.selected_range, reversed: self.selection_reversed }
    }

    /// Return every selection with the primary selection first.
    pub fn selections(&self) -> (selections: Vec<EditorSelection>)
        ensures
            selections@ == self.all_selections(),
    {
        let mut selections: Vec<EditorSelection> = Vec::new();
        selections.push(self.primary_editor_selection());
        let mut i: usize = 0;
        while i < self.secondary_selections.len()
            invariant
                i <= self.secondary_selections@.len(),
                selections@ == seq![self.primary()] + self.secondary_selections@.subrange(
                    0,
                    i as int,
                ),
            decreases self.secondary_selections.len() - i,
        {
            selections.push(self.secondary_selections[i]);
            assert(self.secondary_selections@.subrange(0, i + 1)
                =~= self.secondary_selections@.subrange(0, i as int).push(
                self.secondary_selections@[i as int],
            ));
            i = i + 1;
        }
        assert(selections@ =~= self.all_selections());
        selections
    }

    pub fn has_multiple_selections(&self) -> (multiple: bool)
        ensures
            multiple == (self.all_selections().len() > 1),
    {
        self.secondary_selections.len() > 0
    }

    /// Makes the selections those of the list, in normal form.
    pub(crate) fn set_editor_selections_internal(&mut self, selections: &Vec<EditorSelection>)
        requires
            selections@.len() == 0 ==> old(self).wf(),
        ensures
            final(self).all_selections() == cursors::normalized(
                old(self).bytes(),
                selections@,
                old(self).primary(),
            ),
            cursors::is_normal(old(self).bytes(), final(self).all_selections()),
            final(self).wf(),
            final(self).occurrence_session == old(self).occurrence_session,
            final(self).snippet_session == old(self).snippet_session,
            same_document(*old(self), *final(self)),
    {
        let document = self.document();
        let fallback = self.primary_editor_selection();
        assert(self.all_selections()[0] == self.primary());
        let mut normal = cursors::normalize_selections(&document, selections, fallback);
        let ghost all = normal@;
        let primary = normal.remove(0);
        self.selected_range = primary.range;
        self.selection_reversed = primary.reversed;
        self.secondary_selections = normal;
        assert(self.all_selections() =~= all);
    }

    /// Replace the current editor selections. The first item remains primary;
    /// invalid UTF-8 offsets are clipped, duplicates are removed, and
    /// overlapping selections are merged.
    pub fn set_editor_selections(&mut self, selections: Vec<EditorSelection>)
        requires
            old(self).wf(),
        ensures
            final(self).all_selections() == cursors::normalized(
                old(self).bytes(),
                selections@,
                old(self).primary(),
            ),
            cursors::is_normal(old(self).bytes(), final(self).all_selections()),
            final(self).wf(),
            final(self).occurrence_session is None,
            final(self).snippet_session is None,
            keeps_text(*old(self), *final(self), true),
    {
        self.cancel_linked_editing();
        self.close_signature_help();
        self.snippet_session = None;
        self.occurrence_session = None;
        assert(self.all_selections() =~= old(self).all_selections());
        self.set_editor_selections_internal(&selections);
    }

    /// Remove every secondary selection while preserving the primary one.
    pub fn clear_secondary_selections(&mut self) -> (changed: bool)
        ensures
            changed == (old(self).all_selections().len() > 1),
            final(self).all_selections() == seq![old(self).primary()],
            final(self).occurrence_session is None,
            final(self).snippet_session == old(self).snippet_session,
            old(self).wf() ==> final(self).wf(),
            same_document(*old(self), *final(self)),
    {
        let changed = self.secondary_selections.len() > 0;
        self.secondary_selections = Vec::new();
        self.occurrence_session = None;
        assert(self.all_selections() =~= seq![old(self).primary()]);
        assert(old(self).all_selections()[0] == old(self).primary());
        changed
    }

    /// Set indent guides in code editor mode.
    pub fn indent_guides(self, indent_guides: bool) -> (state: Self)
        requires
            self.mode is CodeEditor,
            self.mode.spec_is_multi_line(),
        ensures
            state == (InputState {
                mode: indent::with_indent_guides(self.mode, indent_guides),
                ..self
            }),
    {
        let mut state = self;
        indent::update_indent_guides(&mut state.mode, indent_guides);
        state
    }

    /// The rows on screen as they stand in the text, a `\r` at their end included.
    pub open spec fn visible_bytes(&self, visible_rows: Seq<usize>) -> Seq<Seq<u8>> {
        Seq::new(
            visible_rows.len(),
            |i: int| text::line_bytes(self.bytes(), visible_rows[i] as int),
        )
    }

    /// The columns of the indent guides of the rows on screen, where the mode
    /// shows them.
    pub fn layout_indent_guides(&self, visible_rows: &Vec<usize>) -> (guides: Option<
        Vec<Vec<usize>>,
    >)
        requires
            self.mode.spec_has_indent_guides() ==> indent::guides_fit(
                self.visible_bytes(visible_rows@),
                self.mode.spec_tab_size().tab_size as int,
            ),
        ensures
            guides is Some == self.mode.spec_has_indent_guides(),
            guides matches Some(columns) ==> {
                &&& columns@.len() == visible_rows@.len()
                &&& forall|i: int|
                    #![trigger columns@[i]]
                    0 <= i < columns@.len() ==> order::indices_view(columns@[i]@)
                        == indent::guide_columns(
                        self.visible_bytes(visible_rows@),
                        self.mode.spec_tab_size().tab_size as int,
                        i,
                    )
            },
    {
        if !self.mode.has_indent_guides() {
            return None;
        }
        let document = self.document();
        let ghost expected = self.visible_bytes(visible_rows@);
        let mut rows: Vec<String> = Vec::new();
        while rows.len() < visible_rows.len()
            invariant
                document.wf(),
                document.bytes() == self.bytes(),
                expected == self.visible_bytes(visible_rows@),
                rows@.len() <= visible_rows@.len(),
                indent::rows_view(rows@) =~= expected.take(rows@.len() as int),
            decreases visible_rows.len() - rows.len(),
        {
            let row: usize = visible_rows[rows.len()];
            let ghost held = rows@;
            let start: usize = document.line_start_offset(row);
            let end: usize = document.line_end_offset(row);
            proof {
                document.lemma_wf();
                text::lemma_line_boundaries(document.bytes(), row as int);
            }
            rows.push(document.slice(start, end));
            assert(indent::rows_view(rows@) =~= indent::rows_view(held).push(
                text::line_bytes(self.bytes(), row as int),
            ));
        }
        assert(indent::rows_view(rows@) =~= expected);
        Some(indent::indent_guide_columns(rows.as_slice(), self.mode.tab_size()))
    }

    /// Set indent guides in code editor mode.
    pub fn set_indent_guides(&mut self, indent_guides: bool)
        requires
            old(self).mode is CodeEditor,
        ensures
            *final(self) == (InputState {
                mode: indent::with_indent_guides(old(self).mode, indent_guides),
                ..*old(self)
            }),
    {
        indent::update_indent_guides(&mut self.mode, indent_guides);
    }

    /// Set the tab size for the input.
    pub fn tab_size(self, tab: TabSize) -> (state: Self)
        requires
            self.mode.spec_is_multi_line() || self.mode is CodeEditor,
        ensures
            state == (InputState { mode: indent::with_tab_size(self.mode, tab), ..self }),
    {
        let mut state = self;
        indent::update_tab_size(&mut state.mode, tab);
        state
    }

    /// Update the tab size after the input has been created. Returns whether
    /// the mode has one.
    pub fn set_tab_size(&mut self, tab: TabSize) -> (updated: bool)
        requires
            old(self).mode.spec_is_multi_line() || old(self).mode is CodeEditor,
        ensures
            *final(self) == (InputState {
                mode: indent::with_tab_size(old(self).mode, tab),
                ..*old(self)
            }),
            updated == !(old(self).mode is AutoGrow),
    {
        indent::update_tab_size(&mut self.mode, tab)
    }
}

} // verus!
