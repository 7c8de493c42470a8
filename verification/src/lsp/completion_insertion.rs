//! Inserting an accepted completion with its snippet and its commit character.

use crate::edit;
use crate::indent::TabSize;
use crate::lsp::completions;
use crate::lsp::completions::{Acceptance, CompletionInsertMode, CompletionItem, InsertTextMode};
use crate::multi_cursor;
use crate::snippet;
use crate::snippet::ParsedSnippet;
use crate::snippet_indentation;
use crate::snippet_indentation::{indented_tabstops, indented_text};
use crate::snippet_state;
use crate::snippet_variables;
use crate::snippet_variables::{SnippetVariableContext, SnippetVariables};
use crate::state::InputState;
use crate::text::Document;
use ropey::Rope;
use std::ops::Range;
use vstd::prelude::*;
use vstd::string::*;
use vstd::utf8::*;

verus! {

pub open spec fn optional_text(text: Option<&str>) -> Option<Seq<char>> {
    match text {
        Some(text) => Some(text@),
        None => None,
    }
}

pub open spec fn optional_tabstops(parsed: Option<&ParsedSnippet>) -> Option<
    Seq<(u32, Seq<(int, int)>)>,
> {
    match parsed {
        Some(parsed) => Some(snippet::tabstops_view(parsed.tabstops@)),
        None => None,
    }
}

/// What an accepted item inserts: the text that its snippet reads with the
/// variables, where it is one, and otherwise its own, with the lines fitted to the
/// row of the cursor unless they are to stand as they are.
pub open spec fn inserted_text(
    t: Seq<u8>,
    own: Seq<char>,
    item: CompletionItem,
    cursor: int,
    tab: TabSize,
    known: Map<Seq<char>, Seq<char>>,
) -> Seq<char> {
    let read = if item.is_snippet {
        snippet::read_snippet_with(own, known).text
    } else {
        own
    };
    if item.insert_text_mode == Some(InsertTextMode::AsIs) {
        read
    } else {
        indented_text(
            read,
            decode_utf8(completions::indentation_at(t, cursor)),
            tab,
            completions::first_line_ending(t, 0),
        )
    }
}

/// The tab stops of an accepted snippet in the text that it inserts.
pub open spec fn inserted_tabstops(
    t: Seq<u8>,
    own: Seq<char>,
    item: CompletionItem,
    cursor: int,
    tab: TabSize,
    known: Map<Seq<char>, Seq<char>>,
) -> Seq<(u32, Seq<(int, int)>)> {
    let read = snippet::read_snippet_with(own, known);
    if item.insert_text_mode == Some(InsertTextMode::AsIs) {
        snippet::grouped(read.ranges)
    } else {
        indented_tabstops(
            read.text,
            snippet::grouped(read.ranges),
            decode_utf8(completions::indentation_at(t, cursor)),
            tab,
            completions::first_line_ending(t, 0),
        )
    }
}

/// What an accepted item inserts in place of its part of the text, with its
/// snippet where it is one.
pub open spec fn is_insertion(
    t: Seq<u8>,
    range: (int, int),
    item: CompletionItem,
    mode: CompletionInsertMode,
    cursor: int,
    tab: TabSize,
    known: Map<Seq<char>, Seq<char>>,
    edit: (Range<usize>, String),
    parsed: Option<ParsedSnippet>,
) -> bool {
    let own = completions::primary_edit(t, range, item, mode);
    &&& edit.0.start == own.0
    &&& edit.0.end == own.1
    &&& edit.1@ == inserted_text(t, own.2, item, cursor, tab, known)
    &&& match parsed {
        Some(parsed) => {
            &&& item.is_snippet
            &&& parsed.text@ == edit.1@
            &&& snippet::tabstops_view(parsed.tabstops@) == inserted_tabstops(
                t,
                own.2,
                item,
                cursor,
                tab,
                known,
            )
        },
        None => !item.is_snippet,
    }
}

/// The part of the text that an accepted item replaces, what it inserts there,
/// and the snippet that this was read from.
pub fn completion_insertion(
    document: &Document,
    range: &Range<usize>,
    item: &CompletionItem,
    mode: CompletionInsertMode,
    cursor: usize,
    tab: TabSize,
    variables: &SnippetVariables,
) -> (insertion: ((Range<usize>, String), Option<ParsedSnippet>))
    requires
        document.wf(),
    ensures
        is_insertion(
            document.bytes(),
            (range.start as int, range.end as int),
            *item,
            mode,
            cursor as int,
            tab,
            variables@,
            insertion.0,
            insertion.1,
        ),
{
    let (own, text) = completions::primary_completion_edit(document, range, item, mode);
    let adjusts = completions::completion_adjusts_indentation(item.insert_text_mode);
    let base = completions::completion_line_indentation(document, cursor);
    let ending = completions::completion_document_line_ending(document);
    proof {
        encode_utf8_decode_utf8(base@);
    }
    if item.is_snippet {
        let mut parsed = snippet::parse_snippet_with_variables(text.as_str(), variables);
        if adjusts {
            parsed.adjust_indentation(base.as_str(), tab, ending);
        }
        let inserted = parsed.text.clone();
        ((own, inserted), Some(parsed))
    } else if adjusts {
        let inserted = snippet_indentation::adjust_text_indentation(
            text.as_str(),
            base.as_str(),
            tab,
            ending,
        );
        ((own, inserted), None)
    } else {
        ((own, text), None)
    }
}

/// Where the text of an accepted completion starts: before the caret that it
/// leaves behind, where every edit was made.
pub open spec fn inserted_start(
    accepted: InputState,
    own: (int, int, Seq<u8>),
    outcome: Acceptance,
) -> int {
    let head = accepted.primary().spec_head();
    if outcome is Complete {
        if head >= own.2.len() {
            head - own.2.len()
        } else {
            0
        }
    } else {
        own.0
    }
}

/// What the character that accepted a completion does, where every edit of it
/// was made.
pub open spec fn is_followed_by(
    accepted: InputState,
    committed: InputState,
    outcome: Acceptance,
    completion_text: Seq<char>,
    character: Option<Seq<char>>,
) -> bool {
    if outcome is Complete && character is Some {
        completions::is_committed(
            accepted,
            committed,
            completion_text,
            character->Some_0,
            completions::commit_fits(accepted, completion_text, character->Some_0),
        )
    } else {
        committed == accepted
    }
}

/// What visiting the tab stops of an inserted snippet starts with.
pub open spec fn is_visited(
    accepted: InputState,
    committed: InputState,
    after: InputState,
    own: (int, int, Seq<u8>),
    outcome: Acceptance,
    tabstops: Option<Seq<(u32, Seq<(int, int)>)>>,
) -> bool {
    if (outcome is Complete || outcome is PrimaryOnly) && tabstops is Some {
        snippet_state::is_started(
            committed,
            after,
            tabstops->Some_0,
            seq![inserted_start(accepted, own, outcome) as usize],
        )
    } else {
        after == committed
    }
}

/// What inserting an accepted completion comes to: its edits, then the character
/// that accepted it, and then the first tab stop of its snippet.
pub open spec fn is_completed(
    before: InputState,
    after: InputState,
    unmoved: bool,
    item: CompletionItem,
    own: (int, int, Seq<u8>),
    completion_text: Seq<char>,
    tabstops: Option<Seq<(u32, Seq<(int, int)>)>>,
    character: Option<Seq<char>>,
    outcome: Acceptance,
) -> bool {
    exists|accepted: InputState, committed: InputState|
        {
            &&& #[trigger] completions::is_accepted(before, accepted, unmoved, item, own, outcome)
            &&& #[trigger] is_followed_by(
                accepted,
                committed,
                outcome,
                completion_text,
                character,
            )
            &&& is_visited(accepted, committed, after, own, outcome, tabstops)
        }
}

/// What inserting an accepted item comes to, with the values of variables.
pub open spec fn is_item_completed(
    before: InputState,
    after: InputState,
    unmoved: bool,
    item: CompletionItem,
    range: (int, int),
    mode: CompletionInsertMode,
    cursor: int,
    known: Map<Seq<char>, Seq<char>>,
    character: Option<Seq<char>>,
    outcome: Acceptance,
) -> bool {
    let t = before.bytes();
    let tab = before.mode.spec_tab_size();
    let own = completions::primary_edit(t, range, item, mode);
    let inserted = inserted_text(t, own.2, item, cursor, tab, known);
    is_completed(
        before,
        after,
        unmoved,
        item,
        (own.0, own.1, encode_utf8(inserted)),
        inserted,
        if item.is_snippet {
            Some(inserted_tabstops(t, own.2, item, cursor, tab, known))
        } else {
            None
        },
        character,
        outcome,
    )
}

impl InputState {
    /// Inserts an accepted completion, while the editor holds what it was
    /// accepted for: its edits, then the character that accepted it, and then
    /// the first tab stop of its snippet is selected. `primary` is the edit of
    /// the item with the text as it is to be inserted.
    pub fn insert_completion(
        &mut self,
        requested: &Rope,
        cursor: usize,
        item: &CompletionItem,
        primary: (Range<usize>, String),
        parsed: Option<&ParsedSnippet>,
        commit_character: Option<&str>,
    ) -> (outcome: Acceptance)
        requires
            old(self).wf(),
            old(self).text_version + 1 < usize::MAX,
        ensures
            final(self).wf(),
            is_completed(
                *old(self),
                *final(self),
                completions::is_unmoved(*old(self), *requested, cursor),
                *item,
                edit::edit_view(primary),
                primary.1@,
                optional_tabstops(parsed),
                optional_text(commit_character),
                outcome,
            ),
    {
        let ghost own = edit::edit_view(primary);
        let text = primary.1.clone();
        let start: usize = primary.0.start;
        let outcome = self.accept_completion(requested, cursor, item, primary);
        let ghost accepted = *self;
        let head: usize = self.cursor();
        let made = outcome == Acceptance::Complete;
        if made {
            if let Some(character) = commit_character {
                self.insert_commit_character(text.as_str(), character);
            }
        }
        let ghost committed = *self;
        if made || outcome == Acceptance::PrimaryOnly {
            if let Some(parsed) = parsed {
                let size: usize = text.as_str().as_bytes().len();
                let place: usize = if !made {
                    start
                } else if head >= size {
                    head - size
                } else {
                    0
                };
                let mut starts: Vec<usize> = Vec::new();
                starts.push(place);
                assert(starts@ =~= seq![inserted_start(accepted, own, outcome) as usize]);
                self.start_snippet_sessions(parsed, starts.as_slice());
            }
        }
        assert(completions::is_accepted(
            *old(self),
            accepted,
            completions::is_unmoved(*old(self), *requested, cursor),
            *item,
            own,
            outcome,
        ));
        assert(is_followed_by(
            accepted,
            committed,
            outcome,
            text@,
            optional_text(commit_character),
        ));
        outcome
    }

    /// The text of the primary selection.
    pub open spec fn selected_chars(&self) -> Seq<char> {
        decode_utf8(
            self.bytes().subrange(self.selected_range.start as int, self.selected_range.end as int),
        )
    }

    /// Inserts an accepted item, while the editor holds what it was accepted for:
    /// a snippet is read with the variables as they are now, and the lines are
    /// fitted to the row of the cursor where the item asks for that.
    pub fn complete(
        &mut self,
        requested: &Rope,
        cursor: usize,
        item: &CompletionItem,
        range: &Range<usize>,
        mode: CompletionInsertMode,
        context: &SnippetVariableContext,
        clipboard: Option<&str>,
        commit_character: Option<&str>,
    ) -> (outcome: Acceptance)
        requires
            old(self).wf(),
            old(self).text_version + 1 < usize::MAX,
        ensures
            final(self).wf(),
            exists|known: Map<Seq<char>, Seq<char>>|
                {
                    &&& item.is_snippet ==> snippet_variables::are_known(
                        context@,
                        old(self).bytes(),
                        cursor as int,
                        old(self).selected_chars(),
                        snippet_variables::copied_text(clipboard),
                        known,
                    )
                    &&& #[trigger] is_item_completed(
                        *old(self),
                        *final(self),
                        completions::is_unmoved(*old(self), *requested, cursor),
                        *item,
                        (range.start as int, range.end as int),
                        mode,
                        cursor as int,
                        known,
                        optional_text(commit_character),
                        outcome,
                    )
                },
    {
        let document = self.document();
        let tab = self.mode.tab_size();
        assert(self.all_selections()[0] == self.primary());
        assert(multi_cursor::is_on_boundaries(self.bytes(), self.all_selections()[0]));
        let variables = if item.is_snippet {
            let selection = document.slice(self.selected_range.start, self.selected_range.end);
            proof {
                encode_utf8_decode_utf8(selection@);
            }
            SnippetVariables::for_completion(
                context,
                &self.text,
                cursor,
                selection.as_str(),
                clipboard,
            )
        } else {
            SnippetVariables::new()
        };
        let ghost known = variables@;
        let (primary, parsed) = completion_insertion(
            &document,
            range,
            item,
            mode,
            cursor,
            tab,
            &variables,
        );
        proof {
            let own = completions::primary_edit(
                self.bytes(),
                (range.start as int, range.end as int),
                *item,
                mode,
            );
            let inserted = inserted_text(self.bytes(), own.2, *item, cursor as int, tab, known);
            assert(edit::edit_view(primary) == (own.0, own.1, encode_utf8(inserted)));
            assert(item.is_snippet ==> snippet_variables::are_known(
                context@,
                self.bytes(),
                cursor as int,
                self.selected_chars(),
                snippet_variables::copied_text(clipboard),
                known,
            ));
        }
        let outcome = self.insert_completion(
            requested,
            cursor,
            item,
            primary,
            parsed.as_ref(),
            commit_character,
        );
        assert(is_item_completed(
            *old(self),
            *self,
            completions::is_unmoved(*old(self), *requested, cursor),
            *item,
            (range.start as int, range.end as int),
            mode,
            cursor as int,
            known,
            optional_text(commit_character),
            outcome,
        ));
        outcome
    }
}

} // verus!
