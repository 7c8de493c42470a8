//! What is shown for the symbol under the pointer or the cursor.

use crate::chars;
use crate::lsp::document_links::{byte_range, find_byte_range};
use crate::lsp::position::TextRange;
use crate::lsp::Lsp;
use crate::state::InputState;
use crate::text;
use std::ops::Range;
use vstd::prelude::*;

verus! {

/// What a server has to say of a symbol.
#[derive(Debug, Clone, PartialEq, Eq)]
pub enum HoverContents {
    Scalar { value: String },
    Array { values: Vec<String> },
    Markup { value: String },
}

#[derive(Debug, Clone, PartialEq, Eq)]
pub struct Hover {
    pub contents: HoverContents,
    pub range: Option<TextRange>,
}

/// What is shown, and for which part of the text.
#[derive(Debug, PartialEq, Eq)]
pub struct HoverPopover {
    pub symbol_range: Range<usize>,
    pub hover: Hover,
}

/// A request for what is known of the symbol at an offset.
#[derive(Debug, PartialEq, Eq)]
pub struct HoverRequest {
    pub offset: usize,
    /// The word at the offset.
    pub symbol_range: Range<usize>,
    /// The reply waits for a moment.
    pub delayed: bool,
}

/// The word at the offset, or the offset.
pub open spec fn symbol_at(t: Seq<u8>, offset: int) -> (int, int) {
    match chars::word_range(t, offset) {
        Some(range) => range,
        None => (offset, offset),
    }
}

/// The first `n` values, with an empty line between them.
pub open spec fn joined_values(values: Seq<String>, n: int) -> Seq<char>
    decreases n,
{
    if n <= 0 {
        Seq::empty()
    } else if n == 1 {
        values[0]@
    } else {
        joined_values(values, n - 1) + seq!['\n', '\n'] + values[n - 1]@
    }
}

/// The text that is shown.
pub open spec fn contents_text(contents: HoverContents) -> Seq<char> {
    match contents {
        HoverContents::Scalar { value } => value@,
        HoverContents::Array { values } => joined_values(values@, values@.len() as int),
        HoverContents::Markup { value } => value@,
    }
}

/// The text that is shown.
pub fn hover_text(contents: &HoverContents) -> (shown: String)
    ensures
        shown@ == contents_text(*contents),
{
    match contents {
        HoverContents::Scalar { value } => value.clone(),
        HoverContents::Markup { value } => value.clone(),
        HoverContents::Array { values } => {
            let mut shown = String::new();
            let mut i: usize = 0;
            assert(shown@ =~= joined_values(values@, 0));
            while i < values.len()
                invariant
                    i <= values@.len(),
                    shown@ == joined_values(values@, i as int),
                decreases values.len() - i,
            {
                let ghost before = shown@;
                if i > 0 {
                    chars::push_char(&mut shown, '\n');
                    chars::push_char(&mut shown, '\n');
                    assert(shown@ =~= before + seq!['\n', '\n']);
                }
                text::push_text(&mut shown, values[i].as_str());
                assert(shown@ =~= joined_values(values@, i + 1));
                i = i + 1;
            }
            shown
        },
    }
}

impl HoverPopover {
    /// The offset is in the part that is shown for.
    pub open spec fn holds(&self, offset: int) -> bool {
        self.symbol_range.start <= offset < self.symbol_range.end
    }

    pub fn is_same(&self, offset: usize) -> (same: bool)
        ensures
            same == self.holds(offset as int),
    {
        self.symbol_range.start <= offset && offset < self.symbol_range.end
    }
}

/// How a key scrolls what is shown.
#[derive(Debug, Copy, Clone, PartialEq, Eq, Structural)]
pub enum HoverPopoverScroll {
    LineUp,
    LineDown,
    PageUp,
    PageDown,
    Top,
    Bottom,
}

/// What a key does to what is shown.
#[derive(Debug, Copy, Clone, PartialEq, Eq, Structural)]
pub enum HoverKeyStep {
    Scroll { command: HoverPopoverScroll },
    Dismiss,
    Ignore,
}

/// What a key does to what is shown.
pub open spec fn key_step(key: Seq<char>, secondary: bool, alt: bool) -> HoverKeyStep {
    if key == "up"@ {
        HoverKeyStep::Scroll {
            command: if secondary {
                HoverPopoverScroll::Top
            } else if alt {
                HoverPopoverScroll::PageUp
            } else {
                HoverPopoverScroll::LineUp
            },
        }
    } else if key == "down"@ {
        HoverKeyStep::Scroll {
            command: if secondary {
                HoverPopoverScroll::Bottom
            } else if alt {
                HoverPopoverScroll::PageDown
            } else {
                HoverPopoverScroll::LineDown
            },
        }
    } else if key == "pageup"@ {
        HoverKeyStep::Scroll { command: HoverPopoverScroll::PageUp }
    } else if key == "pagedown"@ {
        HoverKeyStep::Scroll { command: HoverPopoverScroll::PageDown }
    } else if key == "home"@ {
        HoverKeyStep::Scroll { command: HoverPopoverScroll::Top }
    } else if key == "end"@ {
        HoverKeyStep::Scroll { command: HoverPopoverScroll::Bottom }
    } else if key == "escape"@ {
        HoverKeyStep::Dismiss
    } else {
        HoverKeyStep::Ignore
    }
}

/// What a key does to what is shown.
pub fn hover_key_step(key: &str, secondary: bool, alt: bool) -> (step: HoverKeyStep)
    ensures
        step == key_step(key@, secondary, alt),
{
    if chars::same_text(key, "up") {
        let command = if secondary {
            HoverPopoverScroll::Top
        } else if alt {
            HoverPopoverScroll::PageUp
        } else {
            HoverPopoverScroll::LineUp
        };
        HoverKeyStep::Scroll { command }
    } else if chars::same_text(key, "down") {
        let command = if secondary {
            HoverPopoverScroll::Bottom
        } else if alt {
            HoverPopoverScroll::PageDown
        } else {
            HoverPopoverScroll::LineDown
        };
        HoverKeyStep::Scroll { command }
    } else if chars::same_text(key, "pageup") {
        HoverKeyStep::Scroll { command: HoverPopoverScroll::PageUp }
    } else if chars::same_text(key, "pagedown") {
        HoverKeyStep::Scroll { command: HoverPopoverScroll::PageDown }
    } else if chars::same_text(key, "home") {
        HoverKeyStep::Scroll { command: HoverPopoverScroll::Top }
    } else if chars::same_text(key, "end") {
        HoverKeyStep::Scroll { command: HoverPopoverScroll::Bottom }
    } else if chars::same_text(key, "escape") {
        HoverKeyStep::Dismiss
    } else {
        HoverKeyStep::Ignore
    }
}

/// What showing something for the symbol at the cursor comes to.
#[derive(Debug, PartialEq, Eq)]
pub enum HoverStep {
    /// It cannot be shown.
    Refuse,
    /// A link is shown, or what is asked for is shown already.
    Shown,
    Request { request: HoverRequest },
}

impl InputState {
    /// The popover is for the offset already.
    pub open spec fn shows_hover_at(&self, offset: int) -> bool {
        match self.lsp.hover_popover {
            Some(popover) => popover.holds(offset),
            None => false,
        }
    }

    /// The request for the symbol at the offset.
    pub open spec fn is_hover_request(
        &self,
        offset: usize,
        delay: bool,
        request: HoverRequest,
    ) -> bool {
        &&& request.offset == offset
        &&& (request.symbol_range.start as int, request.symbol_range.end as int) == symbol_at(
            self.bytes(),
            offset as int,
        )
        &&& request.delayed == (delay && self.lsp.hover_popover is None)
    }

    /// Asks what is known of the symbol at the offset, unless it is shown
    /// already or something is being selected.
    pub fn request_hover_popover(
        &self,
        offset: usize,
        delay_initial_request: bool,
        selecting: bool,
        has_provider: bool,
    ) -> (request: Option<HoverRequest>)
        ensures
            match request {
                Some(request) => !selecting && has_provider && !self.shows_hover_at(offset as int)
                    && self.is_hover_request(offset, delay_initial_request, request),
                None => selecting || !has_provider || self.shows_hover_at(offset as int),
            },
    {
        if selecting || !has_provider {
            return None;
        }
        if let Some(popover) = &self.lsp.hover_popover {
            if popover.is_same(offset) {
                return None;
            }
        }
        let document = self.document();
        let symbol_range = match chars::find_word(document.as_str(), offset) {
            Some((start, end)) => Range { start, end },
            None => Range { start: offset, end: offset },
        };
        let delayed = delay_initial_request && self.lsp.hover_popover.is_none();
        Some(HoverRequest { offset, symbol_range, delayed })
    }

    /// Shows what is known of the symbol at the cursor, on command. A link at
    /// the cursor becomes the active one and is shown in its place.
    pub fn show_hover_at_cursor(&mut self, selecting: bool, has_provider: bool) -> (step: HoverStep)
        ensures
            ({
                let cursor = old(self).primary().spec_head();
                let link = old(self).lsp.link_at(old(self).bytes(), cursor as int);
                if !(old(self).mode is CodeEditor) || selecting {
                    step is Refuse && *final(self) == *old(self)
                } else {
                    &&& *final(self) == (InputState {
                        lsp: Lsp {
                            active_document_link: match link {
                                Some(index) => Some(old(self).lsp.document_links@[index]),
                                None => None,
                            },
                            ..old(self).lsp
                        },
                        ..*old(self)
                    })
                    &&& if link is Some {
                        step is Shown
                    } else if !has_provider {
                        step is Refuse
                    } else if old(self).shows_hover_at(cursor as int) {
                        step is Shown
                    } else {
                        step is Request && old(self).is_hover_request(
                            cursor,
                            false,
                            step->request,
                        )
                    }
                }
            }),
    {
        if !self.mode.is_code_editor() || selecting {
            return HoverStep::Refuse;
        }
        let offset: usize = self.cursor();
        if self.handle_hover_document_link(offset) {
            return HoverStep::Shown;
        }
        if !has_provider {
            return HoverStep::Refuse;
        }
        match self.request_hover_popover(offset, false, selecting, has_provider) {
            Some(request) => HoverStep::Request { request },
            None => HoverStep::Shown,
        }
    }

    /// Takes what is known of a symbol. A reply without anything hides what is
    /// shown.
    pub fn receive_hover(&mut self, request: HoverRequest, hover: Option<Hover>)
        ensures
            *final(self) == (InputState {
                lsp: Lsp { hover_popover: final(self).lsp.hover_popover, ..old(self).lsp },
                ..*old(self)
            }),
            match hover {
                None => final(self).lsp.hover_popover is None,
                Some(hover) => {
                    &&& final(self).lsp.hover_popover is Some
                    &&& (final(self).lsp.hover_popover->Some_0).hover == hover
                    &&& ({
                        let shown = (final(self).lsp.hover_popover->Some_0).symbol_range;
                        match hover.range {
                            Some(range) => (shown.start as int, shown.end as int) == byte_range(
                                old(self).bytes(),
                                range,
                            ),
                            None => shown == request.symbol_range,
                        }
                    })
                },
            },
    {
        match hover {
            Some(hover) => {
                let symbol_range = match &hover.range {
                    Some(range) => find_byte_range(&self.document(), range),
                    None => Range {
                        start: request.symbol_range.start,
                        end: request.symbol_range.end,
                    },
                };
                self.lsp.hover_popover = Some(HoverPopover { symbol_range, hover });
            },
            None => {
                self.lsp.hover_popover = None;
            },
        }
    }

    /// Hides what is shown. Returns whether anything was.
    pub fn hide_hover_popover(&mut self) -> (was_visible: bool)
        ensures
            was_visible == (old(self).lsp.hover_popover is Some),
            *final(self) == (InputState {
                lsp: Lsp { hover_popover: None, ..old(self).lsp },
                ..*old(self)
            }),
    {
        let was_visible = self.lsp.hover_popover.is_some();
        self.lsp.hover_popover = None;
        was_visible
    }

    /// What is shown, and for which part of the text.
    pub fn hover_popover_snapshot(&self) -> (snapshot: Option<&HoverPopover>)
        ensures
            match self.lsp.hover_popover {
                Some(popover) => snapshot == Some(&popover),
                None => snapshot is None,
            },
    {
        match &self.lsp.hover_popover {
            Some(popover) => Some(popover),
            None => None,
        }
    }
}

} // verus!
