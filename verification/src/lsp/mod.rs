//! What language servers tell of the text, and the requests for it.
//!
//! A request is numbered by a generation. A reply that comes back is taken only
//! while its generation is the current one.

pub mod code_actions;
pub mod code_lens;
pub mod completion_insertion;
pub mod completion_laws;
pub mod completion_menu;
pub mod completions;
pub mod diagnostics;
pub mod document_colors;
pub mod document_highlights;
pub mod document_links;
pub mod edits;
pub mod folding_ranges;
pub mod hover;
pub mod inlay_hints;
pub mod inline_completion;
pub mod items;
pub mod linked_editing;
pub mod listing_laws;
pub mod position;
pub mod range_laws;
pub mod ranking;
pub mod ranking_laws;
pub mod selection_ranges;
pub mod signature_help;
pub mod signature_laws;

use crate::cursor::Selection;
use crate::folding::FoldRange;
use crate::lsp::code_actions::CodeActionItem;
use crate::lsp::code_lens::CodeLens;
use crate::lsp::document_colors::ColorInformation;
use crate::lsp::document_highlights::DocumentHighlight;
use crate::lsp::document_links::DocumentLink;
use crate::lsp::hover::HoverPopover;
use crate::lsp::inlay_hints::{InlayHint, InlayHintIdentity, PendingInlayHintAction};
use crate::lsp::position::TextRange;
use crate::lsp::signature_help::SignatureHelpPopover;
use std::ops::Range;
use vstd::prelude::*;

verus! {

/// What is known from language servers.
pub struct Lsp {
    pub code_action_generation: u64,
    pub automatic_code_actions: Vec<CodeActionItem>,
    pub automatic_code_action_range: Option<Range<usize>>,
    pub automatic_code_action_requested_range: Option<Range<usize>>,
    pub code_lens_generation: u64,
    pub code_lens_requested_generation: Option<u64>,
    pub code_lenses: Vec<CodeLens>,
    /// Whether each lens needs no more resolving.
    pub code_lens_resolve_attempted: Vec<bool>,
    pub document_link_generation: u64,
    pub document_link_requested_generation: Option<u64>,
    pub document_links: Vec<DocumentLink>,
    pub active_document_link: Option<DocumentLink>,
    pub document_colors: Vec<ColorInformation>,
    pub document_highlights: Vec<DocumentHighlight>,
    pub folding_ranges: Vec<FoldRange>,
    pub selection_range_history: Vec<Selection>,
    pub selection_range_last: Option<Selection>,
    pub inlay_hint_generation: u64,
    pub inlay_hint_range: Option<TextRange>,
    pub inlay_hints: Vec<InlayHint>,
    pub inlay_hint_resolve_attempted: Vec<bool>,
    pub inlay_hint_resolved: Vec<bool>,
    pub inlay_hint_resolve_actions: Vec<Option<PendingInlayHintAction>>,
    pub active_inlay_hint: Option<InlayHintIdentity>,
    pub signature_help_generation: u64,
    pub signature_help_popover: Option<SignatureHelpPopover>,
    pub linked_editing_generation: u64,
    pub linked_editing_ranges: Vec<Range<usize>>,
    pub linked_editing_word_pattern: Option<String>,
    pub linked_editing_regex: Option<String>,
    pub linked_editing_pending: bool,
    pub hover_popover: Option<HoverPopover>,
}

/// The generation behind `generation`.
pub open spec fn next_generation(generation: u64) -> u64 {
    if generation == u64::MAX {
        0
    } else {
        (generation + 1) as u64
    }
}

/// The generation behind `generation`.
pub fn bump(generation: u64) -> (next: u64)
    ensures
        next == next_generation(generation),
        next != generation,
{
    generation.wrapping_add(1)
}

impl Default for Lsp {
    fn default() -> (lsp: Self)
        ensures
            lsp.code_action_generation == 0,
            lsp.automatic_code_actions@.len() == 0,
            lsp.automatic_code_action_range is None,
            lsp.automatic_code_action_requested_range is None,
            lsp.code_lens_generation == 0,
            lsp.code_lens_requested_generation is None,
            lsp.code_lenses@.len() == 0,
            lsp.code_lens_resolve_attempted@.len() == 0,
            lsp.document_link_generation == 0,
            lsp.document_link_requested_generation is None,
            lsp.document_links@.len() == 0,
            lsp.active_document_link is None,
            lsp.document_colors@.len() == 0,
            lsp.document_highlights@.len() == 0,
            lsp.folding_ranges@.len() == 0,
            lsp.selection_range_history@.len() == 0,
            lsp.selection_range_last is None,
            lsp.inlay_hint_generation == 0,
            lsp.inlay_hint_range is None,
            lsp.inlay_hints@.len() == 0,
            lsp.inlay_hint_resolve_attempted@.len() == 0,
            lsp.inlay_hint_resolved@.len() == 0,
            lsp.inlay_hint_resolve_actions@.len() == 0,
            lsp.active_inlay_hint is None,
            lsp.signature_help_generation == 0,
            lsp.signature_help_popover is None,
            lsp.linked_editing_generation == 0,
            lsp.linked_editing_ranges@.len() == 0,
            lsp.linked_editing_word_pattern is None,
            lsp.linked_editing_regex is None,
            !lsp.linked_editing_pending,
            lsp.hover_popover is None,
    {
        Lsp {
            code_action_generation: 0,
            automatic_code_actions: Vec::new(),
            automatic_code_action_range: None,
            automatic_code_action_requested_range: None,
            code_lens_generation: 0,
            code_lens_requested_generation: None,
            code_lenses: Vec::new(),
            code_lens_resolve_attempted: Vec::new(),
            document_link_generation: 0,
            document_link_requested_generation: None,
            document_links: Vec::new(),
            active_document_link: None,
            document_colors: Vec::new(),
            document_highlights: Vec::new(),
            folding_ranges: Vec::new(),
            selection_range_history: Vec::new(),
            selection_range_last: None,
            inlay_hint_generation: 0,
            inlay_hint_range: None,
            inlay_hints: Vec::new(),
            inlay_hint_resolve_attempted: Vec::new(),
            inlay_hint_resolved: Vec::new(),
            inlay_hint_resolve_actions: Vec::new(),
            active_inlay_hint: None,
            signature_help_generation: 0,
            signature_help_popover: None,
            linked_editing_generation: 0,
            linked_editing_ranges: Vec::new(),
            linked_editing_word_pattern: None,
            linked_editing_regex: None,
            linked_editing_pending: false,
            hover_popover: None,
        }
    }
}

} // verus!
