//! Filling a tab stop with one of its choices.

use crate::chars;
use crate::edit;
use crate::lsp::completion_menu;
use crate::lsp::completion_menu::CompletionMenu;
use crate::motion;
use crate::snippet_session;
use crate::snippet_state;
use crate::state::InputState;
use crate::text::Document;
use crate::text;
use crate::transaction;
use std::ops::Range;
use vstd::prelude::*;
use vstd::string::*;
use vstd::utf8::*;

verus! {

/// The active ranges of the session, or none.
pub open spec fn active_ranges(state: InputState) -> Seq<(int, int)> {
    match snippet_session::optional_model(state.snippet_session) {
        Some(session) => session.active_ranges(),
        None => Seq::empty(),
    }
}

/// Whether the choice is one of those that the active tab stop offers and there
/// are ranges to fill with it.
pub open spec fn can_choose(state: InputState, choices: Seq<String>, choice: Seq<char>) -> bool {
    &&& active_ranges(state).len() > 0
    &&& snippet_state::all_readable(state.bytes(), active_ranges(state))
    &&& completion_menu::has_choice(choices, choice)
}

/// Whether every range reads the choice.
pub open spec fn all_read(t: Seq<u8>, ranges: Seq<(int, int)>, choice: Seq<u8>) -> bool {
    forall|i: int|
        #![trigger ranges[i]]
        0 <= i < ranges.len() ==> t.subrange(ranges[i].0, ranges[i].1) == choice
}

/// What filling the active ranges with a choice does: nothing where they all
/// read it, or where there is not one of them for each selection.
pub open spec fn is_filled(before: InputState, after: InputState, choice: Seq<u8>) -> bool {
    let ranges = active_ranges(before);
    if all_read(before.bytes(), ranges, choice) || ranges.len() != before.all_selections().len() {
        after == before
    } else {
        let edits = motion::selection_edits(ranges, Seq::new(ranges.len(), |i: int| choice));
        motion::replaced_ranges(
            before,
            after,
            edits,
            motion::own_indices(ranges.len()),
            transaction::are_applicable(before.bytes(), edit::sorted_edits(edits)),
        )
    }
}

/// What accepting a choice does: the ranges are filled with it, and then the
/// next tab stop is visited.
pub open spec fn is_accepted(
    before: InputState,
    filled: InputState,
    synchronized: InputState,
    after: InputState,
    choice: Seq<u8>,
) -> bool {
    &&& is_filled(before, filled, choice)
    &&& snippet_state::is_synchronized(filled, synchronized)
    &&& snippet_state::next_visited(synchronized, after)
}

fn check_read(document: &Document, ranges: &Vec<Range<usize>>, choice: &str) -> (read: bool)
    requires
        document.wf(),
        snippet_state::all_readable(document.bytes(), text::ranges_view(ranges@)),
    ensures
        read == all_read(
            document.bytes(),
            text::ranges_view(ranges@),
            encode_utf8(choice@),
        ),
{
    let ghost rv = text::ranges_view(ranges@);
    let ghost wanted = encode_utf8(choice@);
    let mut i: usize = 0;
    while i < ranges.len()
        invariant
            i <= ranges@.len(),
            document.wf(),
            rv == text::ranges_view(ranges@),
            wanted == encode_utf8(choice@),
            snippet_state::all_readable(document.bytes(), rv),
            forall|k: int|
                #![trigger rv[k]]
                0 <= k < i ==> document.bytes().subrange(rv[k].0, rv[k].1) == wanted,
        decreases ranges.len() - i,
    {
        assert(rv[i as int] == (ranges@[i as int].start as int, ranges@[i as int].end as int));
        let held = document.slice(ranges[i].start, ranges[i].end);
        if !chars::same_text(held.as_str(), choice) {
            proof {
                encode_utf8_decode_utf8(held@);
                encode_utf8_decode_utf8(choice@);
            }
            assert(document.bytes().subrange(rv[i as int].0, rv[i as int].1) != wanted);
            return false;
        }
        i = i + 1;
    }
    true
}

impl InputState {
    /// Fills the active tab stop with one of its choices and goes to the next.
    /// Returns whether that was done: not without a session, where it has no
    /// range of the text, or where the choice is not among them.
    pub fn accept_active_snippet_choice(&mut self, choices: &Vec<String>, choice: &str) -> (accepted:
        bool)
        requires
            old(self).wf(),
            old(self).text_version + 1 < usize::MAX,
        ensures
            final(self).wf(),
            accepted == can_choose(*old(self), choices@, choice@),
            !accepted ==> *final(self) == *old(self),
            accepted ==> exists|filled: InputState, synchronized: InputState|
                #[trigger] is_accepted(
                    *old(self),
                    filled,
                    synchronized,
                    *final(self),
                    encode_utf8(choice@),
                ),
    {
        let ranges = self.active_snippet_tabstop_ranges();
        let document = self.document();
        let ghost rv = text::ranges_view(ranges@);
        assert(rv.len() == ranges@.len());
        assert(rv =~= active_ranges(*self));
        if ranges.len() == 0 || !snippet_state::check_readable(&document, &ranges)
            || !completion_menu::check_choice(choices, choice) {
            return false;
        }
        if !check_read(&document, &ranges, choice) {
            let mut texts: Vec<String> = Vec::new();
            while texts.len() < ranges.len()
                invariant
                    texts@.len() <= ranges@.len(),
                    forall|k: int| 0 <= k < texts@.len() ==> (#[trigger] texts@[k])@ == choice@,
                decreases ranges.len() - texts.len(),
            {
                texts.push(choice.to_owned());
            }
            assert(motion::texts_view(texts@) =~= Seq::new(
                rv.len(),
                |i: int| encode_utf8(choice@),
            ));
            assert(text::ranges_view(ranges@) =~= rv);
            self.replace_selection_ranges(ranges, texts);
        }
        let ghost filled = *self;
        assert(is_filled(*old(self), filled, encode_utf8(choice@)));
        self.move_to_next_snippet_tabstop();
        proof {
            let synchronized = choose|middle: InputState|
                snippet_state::is_synchronized(filled, middle)
                    && #[trigger] snippet_state::next_visited(middle, *self);
            assert(is_accepted(
                *old(self),
                filled,
                synchronized,
                *self,
                encode_utf8(choice@),
            ));
        }
        true
    }
}

/// The menu without choices of a snippet.
pub open spec fn without_choices(menu: CompletionMenu) -> CompletionMenu {
    if menu.open && menu.mode is SnippetChoice {
        completion_menu::hidden(menu)
    } else {
        menu
    }
}

impl CompletionMenu {
    /// Hides the menu where it offers choices of a snippet.
    pub fn hide_snippet_choice_menu(&mut self)
        ensures
            *final(self) == without_choices(*old(self)),
    {
        if self.is_snippet_choice() {
            self.dismiss();
        }
    }

    /// Offers the choices of the active tab stop, if it has any, and hides those
    /// of another. Returns whether choices are offered. A session whose range is
    /// none of the text ends.
    pub fn refresh_active_snippet_choice_menu(
        &mut self,
        state: &mut InputState,
        choices: Option<&Vec<String>>,
    ) -> (shown: bool)
        ensures
            ({
                let ranges = active_ranges(*old(state));
                if ranges.len() == 0 || choices is None {
                    &&& !shown
                    &&& *final(state) == *old(state)
                    &&& *final(self) == without_choices(*old(self))
                } else if !snippet_state::is_readable(old(state).bytes(), ranges[0]) {
                    &&& !shown
                    &&& *final(state) == (InputState { snippet_session: None, ..*old(state) })
                    &&& *final(self) == without_choices(*old(self))
                } else {
                    &&& shown
                    &&& *final(state) == *old(state)
                    &&& completion_menu::is_showing_choices(
                        *old(self),
                        *final(self),
                        Range { start: ranges[0].0 as usize, end: ranges[0].1 as usize },
                        completion_menu::typed_text(
                            old(state).bytes(),
                            ranges[0].0,
                            ranges[0].1,
                        ),
                        choices->Some_0@,
                    )
                }
            }),
    {
        let ranges = state.active_snippet_tabstop_ranges();
        let ghost rv = text::ranges_view(ranges@);
        assert(rv.len() == ranges@.len());
        match choices {
            Some(choices) => {
                if ranges.len() == 0 {
                    self.hide_snippet_choice_menu();
                    return false;
                }
                let range = ranges[0].start..ranges[0].end;
                assert(rv[0] == (range.start as int, range.end as int));
                let document = state.document();
                if range.start > range.end || range.end > document.len()
                    || !document.is_char_boundary(range.start) || !document.is_char_boundary(
                    range.end,
                ) {
                    state.snippet_session = None;
                    self.hide_snippet_choice_menu();
                    return false;
                }
                let current = document.slice(range.start, range.end);
                proof {
                    encode_utf8_decode_utf8(current@);
                }
                self.show_snippet_choices(range, current.as_str(), choices);
                true
            },
            None => {
                self.hide_snippet_choice_menu();
                false
            },
        }
    }
}

} // verus!
