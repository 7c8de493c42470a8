//! Edits that several cursors make at once.

use crate::cursor;
use crate::cursor::EditorSelection;
use crate::edit;
use crate::lsp::linked_editing;
use crate::snippet_session;
use crate::snippet_session::{SnippetModel, SnippetSession};
use crate::snippet_state;
use crate::snippet_state::SyncModel;
use crate::state::InputState;
use crate::text;
use crate::transaction;
use std::ops::Range;
use vstd::prelude::*;
use vstd::utf8::*;

verus! {

/// The text and the session once the mirrors of the active tab stop are in step.
pub open spec fn in_step(t: Seq<u8>, session: Option<SnippetModel>) -> (
    Seq<u8>,
    Option<SnippetModel>,
) {
    match session {
        None => (t, None),
        Some(session) => if session.active_ranges().len() == 0 || !snippet_state::all_readable(
            t,
            session.active_ranges(),
        ) {
            (t, None)
        } else {
            let edits = edit::sorted_edits(
                snippet_state::mirror_edits(t, session, session.instances),
            );
            let result = snippet_state::synced(
                SyncModel {
                    text: t,
                    session,
                    selections: Seq::empty(),
                    going: true,
                    changed: false,
                },
                edits,
                edits.len() as int,
            );
            (
                result.text,
                if result.going {
                    Some(result.session)
                } else {
                    None
                },
            )
        },
    }
}

/// The carets behind the edits, or, where a session has one active range for
/// each of `n` selections, behind those.
pub open spec fn settled_carets(
    session: Option<SnippetModel>,
    carets: Seq<EditorSelection>,
    n: int,
) -> Seq<EditorSelection> {
    match session {
        Some(session) => if session.active_ranges().len() == n {
            Seq::new(
                n as nat,
                |i: int| cursor::spec_caret(session.active_ranges()[i].1 as usize),
            )
        } else {
            carets
        },
        None => carets,
    }
}

/// What the edits of several cursors do: linked editing ends, and the mirrors of
/// a snippet that is being filled in follow.
pub open spec fn is_cursor_transaction(
    before: InputState,
    after: InputState,
    edits: Seq<(int, int, Seq<u8>)>,
    carets: Seq<EditorSelection>,
) -> bool {
    let (text, session) = in_step(
        edit::applied(before.bytes(), edits),
        transaction::followed_session(
            snippet_session::optional_model(before.snippet_session),
            edits,
            edits.len() as int,
        ),
    );
    &&& transaction::is_step(
        before,
        after,
        text,
        settled_carets(session, carets, before.all_selections().len() as int),
        session,
    )
    &&& linked_editing::without_linked(before.lsp, after.lsp)
}

/// What is selected has no part in bringing mirrors into step.
proof fn lemma_synced_alike(
    a: SyncModel,
    b: SyncModel,
    edits: Seq<(int, int, Seq<u8>)>,
    n: int,
)
    requires
        a.text == b.text,
        a.session == b.session,
        a.going == b.going,
    ensures
        ({
            let x = snippet_state::synced(a, edits, n);
            let y = snippet_state::synced(b, edits, n);
            x.text == y.text && x.session == y.session && x.going == y.going
        }),
    decreases n,
{
    if n > 0 && a.going {
        let e = edits[n - 1];
        if snippet_state::is_readable(a.text, (e.0, e.1)) {
            if a.text.subrange(e.0, e.1) == e.2 {
                lemma_synced_alike(a, b, edits, n - 1);
            } else {
                let text = edit::replaced(a.text, e);
                let session = a.session.after_edit((e.0, e.1), e.2.len() as int, None);
                lemma_synced_alike(
                    SyncModel {
                        text,
                        session,
                        selections: Seq::new(
                            a.selections.len(),
                            |i: int|
                                snippet_state::selection_behind(
                                    a.selections[i],
                                    (e.0, e.1),
                                    e.2.len() as int,
                                ),
                        ),
                        changed: true,
                        ..a
                    },
                    SyncModel {
                        text,
                        session,
                        selections: Seq::new(
                            b.selections.len(),
                            |i: int|
                                snippet_state::selection_behind(
                                    b.selections[i],
                                    (e.0, e.1),
                                    e.2.len() as int,
                                ),
                        ),
                        changed: true,
                        ..b
                    },
                    edits,
                    n - 1,
                );
            }
        }
    }
}

/// Bringing the mirrors into step does to text and session what it does without
/// selections.
proof fn lemma_in_step(before: InputState, after: InputState)
    requires
        snippet_state::is_synchronized(before, after),
    ensures
        (after.bytes(), snippet_session::optional_model(after.snippet_session)) == in_step(
            before.bytes(),
            snippet_session::optional_model(before.snippet_session),
        ),
{
    match snippet_session::optional_model(before.snippet_session) {
        None => {},
        Some(session) => {
            let t = before.bytes();
            let edits = edit::sorted_edits(
                snippet_state::mirror_edits(t, session, session.instances),
            );
            lemma_synced_alike(
                SyncModel {
                    text: t,
                    session,
                    selections: before.all_selections(),
                    going: true,
                    changed: false,
                },
                SyncModel {
                    text: t,
                    session,
                    selections: Seq::empty(),
                    going: true,
                    changed: false,
                },
                edits,
                edits.len() as int,
            );
        },
    }
}

/// The carets behind the edits or behind the active ranges.
fn settle_carets(
    session: &Option<SnippetSession>,
    carets: Vec<EditorSelection>,
    count: usize,
) -> (settled: Vec<EditorSelection>)
    ensures
        settled@ == settled_carets(
            snippet_session::optional_model(*session),
            carets@,
            count as int,
        ),
{
    match session {
        Some(session) => {
            let ranges = session.active_ranges();
            let ghost active = snippet_session::session_model(*session).active_ranges();
            assert(active.len() == ranges@.len());
            if ranges.len() != count {
                return carets;
            }
            let mut settled: Vec<EditorSelection> = Vec::new();
            while settled.len() < count
                invariant
                    settled@.len() <= count,
                    ranges@.len() == count,
                    active == text::ranges_view(ranges@),
                    forall|k: int|
                        0 <= k < settled@.len() ==> #[trigger] settled@[k] == cursor::spec_caret(
                            active[k].1 as usize,
                        ),
                decreases count - settled.len(),
            {
                let i: usize = settled.len();
                assert(active[i as int].1 == ranges@[i as int].end);
                settled.push(EditorSelection::caret(ranges[i].end));
            }
            assert(settled@ =~= settled_carets(
                snippet_session::optional_model(Some(*session)),
                carets@,
                count as int,
            ));
            settled
        },
        None => carets,
    }
}

impl InputState {
    fn commit_cursors(&mut self, edits: &Vec<(Range<usize>, String)>, carets: Vec<EditorSelection>)
        requires
            old(self).wf(),
            carets@.len() > 0,
            old(self).text_version < usize::MAX,
            transaction::are_applicable(old(self).bytes(), edit::edits_view(edits@)),
        ensures
            is_cursor_transaction(*old(self), *final(self), edit::edits_view(edits@), carets@),
            final(self).wf(),
    {
        let before = self.selections();
        let count: usize = before.len();
        let version: usize = self.text_version;
        self.cancel_linked_editing();
        transaction::apply_edits(&mut self.text, edits);
        self.occurrence_session = None;
        let session = self.snippet_session.take();
        self.snippet_session = transaction::follow_edits(session, edits);
        self.set_editor_selections_internal(&carets);
        let ghost edited = *self;
        self.synchronize_active_snippet_mirrors();
        proof {
            lemma_in_step(edited, *self);
        }
        let ghost stepped = *self;
        let settled = settle_carets(&self.snippet_session, carets, count);
        self.text_version = version + 1;
        self.set_editor_selections_internal(&settled);
        let after = self.selections();
        let ghost selected = *self;
        transaction::record_selections(&mut self.selection_history, version, before, after);
        assert(self.all_selections() =~= selected.all_selections());
    }

    /// Makes one edit for each cursor, each given with the selection it belongs
    /// to, as one step of the history. Each of those selections becomes a caret
    /// behind its edit. Returns what the primary selection's edit inserted, or
    /// `None` where the edits overlap or cannot be made.
    pub(crate) fn apply_cursor_edits(
        &mut self,
        edits: Vec<(Range<usize>, String)>,
        owners: Vec<Option<usize>>,
    ) -> (inserted: Option<String>)
        requires
            old(self).wf(),
            old(self).text_version < usize::MAX,
            owners@.len() == edits@.len(),
            edits@.len() > 0 ==> transaction::carets_behind(
                edit::sorted_edits(edit::edits_view(edits@)),
                transaction::sorted_owners(edit::edits_view(edits@), owners@),
                old(self).all_selections().len() as int,
            ).len() > 0,
        ensures
            ({
                let sorted = edit::sorted_edits(edit::edits_view(edits@));
                let placed = transaction::sorted_owners(edit::edits_view(edits@), owners@);
                &&& inserted is Some == transaction::are_applicable(old(self).bytes(), sorted)
                &&& inserted is None ==> *final(self) == *old(self)
                &&& inserted matches Some(inserted) ==> {
                    &&& encode_utf8(inserted@) == transaction::primary_insertion(sorted, placed)
                    &&& is_cursor_transaction(
                        *old(self),
                        *final(self),
                        sorted,
                        transaction::carets_behind(
                            sorted,
                            placed,
                            old(self).all_selections().len() as int,
                        ),
                    )
                }
            }),
            final(self).wf(),
    {
        match self.plan_cursor_edits(edits, owners) {
            Some(plan) => {
                self.commit_cursors(&plan.edits, plan.carets);
                Some(plan.inserted)
            },
            None => None,
        }
    }
}

} // verus!
