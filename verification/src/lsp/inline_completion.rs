//! The completion that is shown behind the cursor while typing.

use crate::lsp::completions;
use crate::state::InputState;
use vstd::prelude::*;

verus! {

/// What is suggested at the cursor, if anything is.
pub struct InlineCompletion {
    pub item: Option<String>,
}

/// Whether a suggestion that was asked for at an offset is still wanted: the
/// cursor is still there and no menu is open.
pub open spec fn is_wanted(requested: usize, cursor: usize, menu_open: bool) -> bool {
    requested == cursor && !menu_open
}

/// Whether to ask for, or to show, a suggestion for an offset.
pub fn wants_inline_completion(requested: usize, cursor: usize, menu_open: bool) -> (wanted: bool)
    ensures
        wanted == is_wanted(requested, cursor, menu_open),
{
    requested == cursor && !menu_open
}

impl InlineCompletion {
    pub fn new() -> (inline: Self)
        ensures
            inline.item is None,
    {
        InlineCompletion { item: None }
    }

    /// Drops the suggestion after a change of the text. Returns the offset for
    /// which to ask, after a delay, where there is someone to ask.
    pub fn schedule_inline_completion(&mut self, state: &InputState, has_provider: bool) -> (request:
        Option<usize>)
        ensures
            final(self).item is None,
            request == if has_provider {
                Some(state.primary().spec_head())
            } else {
                None
            },
    {
        self.item = None;
        if has_provider {
            Some(state.cursor())
        } else {
            None
        }
    }

    /// Takes the first suggestion of a reply that is still wanted.
    pub fn receive_inline_completion(
        &mut self,
        requested: usize,
        cursor: usize,
        menu_open: bool,
        suggestions: Vec<String>,
    ) -> (taken: bool)
        ensures
            taken == (is_wanted(requested, cursor, menu_open) && suggestions@.len() > 0),
            taken ==> final(self).item is Some && (final(self).item->Some_0)@ == suggestions@[0]@,
            !taken ==> *final(self) == *old(self),
    {
        if !wants_inline_completion(requested, cursor, menu_open) || suggestions.len() == 0 {
            return false;
        }
        self.item = Some(suggestions[0].clone());
        true
    }

    /// Whether a suggestion is shown.
    pub fn has_inline_completion(&self) -> (shown: bool)
        ensures
            shown == (self.item is Some),
    {
        self.item.is_some()
    }

    /// Drops the suggestion.
    pub fn clear_inline_completion(&mut self)
        ensures
            final(self).item is None,
    {
        self.item = None;
    }

    /// Accept the inline completion, inserting it at the cursor position.
    /// Returns true if a completion was accepted, false if there was none.
    pub fn accept_inline_completion(&mut self, state: &mut InputState) -> (accepted: bool)
        requires
            old(state).wf(),
            old(state).text_version < usize::MAX,
        ensures
            final(state).wf(),
            final(self).item is None,
            accepted == (old(self).item is Some),
            !accepted ==> *final(state) == *old(state),
            accepted ==> completions::is_inserted(
                *old(state),
                *final(state),
                (old(self).item->Some_0)@,
            ),
    {
        match self.item.take() {
            Some(text) => state.accept_inline_completion(Some(text.as_str())),
            None => false,
        }
    }
}

} // verus!
