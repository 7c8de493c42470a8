//! Edits that a server asks for, and what an edit leaves of what servers told.

use crate::cursor::EditorSelection;
use crate::edit;
use crate::lsp::document_links::{byte_range, find_byte_range};
use crate::lsp::inlay_hints::TextEdit;
use crate::lsp::Lsp;
use crate::multi_cursor as cursors;
use crate::snippet_session;
use crate::snippet_session::SnippetModel;
use crate::state::InputState;
use crate::transaction;
use std::ops::Range;
use vstd::prelude::*;
use vstd::utf8::*;

verus! {

/// A text with the selections in it and their history.
pub struct EditedModel {
    pub text: Seq<u8>,
    pub selections: Seq<EditorSelection>,
    pub version: usize,
    pub session: Option<SnippetModel>,
    pub history: Seq<(usize, Seq<EditorSelection>, Seq<EditorSelection>)>,
}

/// The part of an editor that edits change.
pub open spec fn edited_model(state: InputState) -> EditedModel {
    EditedModel {
        text: state.bytes(),
        selections: state.all_selections(),
        version: state.text_version,
        session: snippet_session::optional_model(state.snippet_session),
        history: transaction::history_view(state.selection_history@),
    }
}

/// One edit where it can be made; its positions are those of the text as it is.
pub open spec fn edited_once(m: EditedModel, change: TextEdit) -> EditedModel {
    let own = seq![
        (
            byte_range(m.text, change.range).0,
            byte_range(m.text, change.range).1,
            encode_utf8(change.new_text@),
        ),
    ];
    let sorted = edit::sorted_edits(own);
    if transaction::are_applicable(m.text, sorted) {
        let text = edit::applied(m.text, sorted);
        let selections = cursors::normalized(
            text,
            Seq::new(
                m.selections.len(),
                |i: int| edit::shifted_selection(sorted, m.selections[i], true),
            ),
            m.selections[0],
        );
        EditedModel {
            text,
            selections,
            version: (m.version + 1) as usize,
            session: transaction::followed_session(m.session, sorted, sorted.len() as int),
            history: transaction::recorded(m.history, m.version, m.selections, selections),
        }
    } else {
        m
    }
}

/// The first `n` edits, one after the other.
pub open spec fn edited(m: EditedModel, changes: Seq<TextEdit>, n: int) -> EditedModel
    decreases n,
{
    if n <= 0 {
        m
    } else {
        edited_once(edited(m, changes, n - 1), changes[n - 1])
    }
}

impl InputState {
    /// Makes the edits, one after the other. One that cannot be made is left out.
    pub fn apply_lsp_edits(&mut self, text_edits: &Vec<TextEdit>)
        requires
            old(self).wf(),
            old(self).text_version + text_edits@.len() <= usize::MAX,
        ensures
            final(self).wf(),
            edited_model(*final(self)) == edited(
                edited_model(*old(self)),
                text_edits@,
                text_edits@.len() as int,
            ),
            final(self).text_version == old(self).text_version ==> *final(self) == *old(self),
            final(self).text_version > old(self).text_version
                ==> final(self).occurrence_session is None,
            final(self).text_version >= old(self).text_version,
            final(self).mode == old(self).mode,
            final(self).disabled == old(self).disabled,
            final(self).language_configuration == old(self).language_configuration,
            final(self).fold_candidates == old(self).fold_candidates,
            final(self).folded_ranges == old(self).folded_ranges,
            final(self).lsp == old(self).lsp,
    {
        let ghost first = edited_model(*self);
        let mut i: usize = 0;
        while i < text_edits.len()
            invariant
                i <= text_edits@.len(),
                self.wf(),
                old(self).text_version + text_edits@.len() <= usize::MAX,
                edited_model(*self) == edited(first, text_edits@, i as int),
                old(self).text_version <= self.text_version <= old(self).text_version + i,
                self.text_version == old(self).text_version ==> *self == *old(self),
                self.text_version > old(self).text_version ==> self.occurrence_session is None,
                self.mode == old(self).mode,
                self.disabled == old(self).disabled,
                self.language_configuration == old(self).language_configuration,
                self.fold_candidates == old(self).fold_candidates,
                self.folded_ranges == old(self).folded_ranges,
                self.lsp == old(self).lsp,
            decreases text_edits.len() - i,
        {
            let document = self.document();
            let change = &text_edits[i];
            let ghost m = edited(first, text_edits@, i as int);
            let mut single: Vec<(Range<usize>, String)> = Vec::new();
            single.push((find_byte_range(&document, &change.range), change.new_text.clone()));
            let ghost own = seq![
                (
                    byte_range(m.text, change.range).0,
                    byte_range(m.text, change.range).1,
                    encode_utf8(change.new_text@),
                ),
            ];
            assert(edit::edits_view(single@) =~= own);
            assert(self.all_selections()[0] == self.primary());
            self.apply_buffer_edits(single);
            i = i + 1;
        }
    }
}

/// What is left after an edit: nothing that was told of the text before.
pub open spec fn is_updated(before: Lsp, after: Lsp) -> bool {
    &&& after == (Lsp {
        inlay_hint_range: None,
        inlay_hints: after.inlay_hints,
        inlay_hint_resolve_attempted: after.inlay_hint_resolve_attempted,
        inlay_hint_resolved: after.inlay_hint_resolved,
        inlay_hint_resolve_actions: after.inlay_hint_resolve_actions,
        selection_range_history: after.selection_range_history,
        selection_range_last: None,
        folding_ranges: after.folding_ranges,
        document_colors: after.document_colors,
        ..before
    })
    &&& after.inlay_hints@.len() == 0
    &&& after.hints_wf()
    &&& after.selection_range_history@.len() == 0
    &&& after.folding_ranges@.len() == 0
    &&& after.document_colors@.len() == 0
}

impl Lsp {
    /// Drops what was told of the text before an edit. What is to be asked for
    /// anew follows.
    pub fn update(&mut self)
        ensures
            is_updated(*old(self), *final(self)),
    {
        self.inlay_hint_range = None;
        self.inlay_hints = Vec::new();
        self.inlay_hint_resolve_attempted = Vec::new();
        self.inlay_hint_resolved = Vec::new();
        self.inlay_hint_resolve_actions = Vec::new();
        self.selection_range_history = Vec::new();
        self.selection_range_last = None;
        self.folding_ranges = Vec::new();
        self.document_colors = Vec::new();
    }

    /// Drops what was told of another text.
    pub fn reset(&mut self)
        ensures
            final(self).document_highlights@.len() == 0,
            is_updated(
                (Lsp { document_highlights: final(self).document_highlights, ..*old(self) }),
                *final(self),
            ),
    {
        self.document_highlights = Vec::new();
        self.update();
    }
}

} // verus!
