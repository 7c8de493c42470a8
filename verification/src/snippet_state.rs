//! Snippets in the editor.

use crate::cursor;
use crate::cursor::EditorSelection;
use crate::edit;
use crate::line_operations as lines;
use crate::multi_cursor as cursors;
use crate::rope;
use crate::snippet;
use crate::snippet::ParsedSnippet;
use crate::snippet_session;
use crate::snippet_session::{SnippetModel, SnippetSession};
use crate::state;
use crate::state::InputState;
use crate::text;
use crate::text::Document;
use std::ops::Range;
use vstd::prelude::*;
use vstd::string::*;
use vstd::utf8::*;

verus! {

/// Whether every range ends in a text of the length.
pub open spec fn all_within(ranges: Seq<(int, int)>, len: int) -> bool {
    forall|i: int| #![trigger ranges[i]] 0 <= i < ranges.len() ==> ranges[i].1 <= len
}

pub open spec fn ranges_selected(ranges: Seq<(int, int)>) -> Seq<EditorSelection> {
    Seq::new(
        ranges.len(),
        |i: int| cursor::spec_from_anchor_and_head(ranges[i].0 as usize, ranges[i].1 as usize),
    )
}

fn check_within(ranges: &Vec<Range<usize>>, len: usize) -> (within: bool)
    ensures
        within == all_within(text::ranges_view(ranges@), len as int),
{
    let ghost rv = text::ranges_view(ranges@);
    let mut i: usize = 0;
    while i < ranges.len()
        invariant
            i <= ranges@.len(),
            rv == text::ranges_view(ranges@),
            forall|k: int| #![trigger rv[k]] 0 <= k < i ==> rv[k].1 <= len,
        decreases ranges.len() - i,
    {
        assert(rv[i as int].1 == ranges@[i as int].end);
        if ranges[i].end > len {
            return false;
        }
        i = i + 1;
    }
    true
}

/// What selecting the active ranges does: the session ends where there are
/// none or one lies outside the text.
pub open spec fn selected_ranges(
    before: InputState,
    after: InputState,
    session: Option<SnippetModel>,
    ranges: Seq<(int, int)>,
) -> bool {
    if ranges.len() == 0 || !all_within(ranges, before.bytes().len() as int) {
        &&& snippet_session::optional_model(after.snippet_session) is None
        &&& after.all_selections() == before.all_selections()
        &&& after.occurrence_session == before.occurrence_session
    } else {
        &&& snippet_session::optional_model(after.snippet_session) == session
        &&& after.all_selections() == cursors::normalized(
            before.bytes(),
            ranges_selected(ranges),
            before.primary(),
        )
        &&& after.occurrence_session is None
    }
}

/// The session to keep once its tab stop is visited: none at the last one.
pub open spec fn kept_session(session: SnippetModel) -> Option<SnippetModel> {
    if 0 <= session.active < session.tabstops.len() && session.tabstops[session.active].0 == 0 {
        None
    } else {
        Some(session)
    }
}

/// No two of the starts are the same.
pub open spec fn all_distinct(starts: Seq<usize>) -> bool {
    forall|i: int, j: int|
        #![trigger starts[i], starts[j]]
        0 <= i < j < starts.len() ==> starts[i] != starts[j]
}

fn check_distinct(starts: &[usize]) -> (distinct: bool)
    ensures
        distinct == all_distinct(starts@),
{
    let mut j: usize = 0;
    while j < starts.len()
        invariant
            j <= starts@.len(),
            forall|a: int, b: int|
                #![trigger starts@[a], starts@[b]]
                0 <= a < b < j ==> starts@[a] != starts@[b],
        decreases starts.len() - j,
    {
        let mut i: usize = 0;
        while i < j
            invariant
                i <= j < starts@.len(),
                forall|a: int| 0 <= a < i ==> #[trigger] starts@[a] != starts@[j as int],
            decreases j - i,
        {
            if starts[i] == starts[j] {
                return false;
            }
            i = i + 1;
        }
        j = j + 1;
    }
    true
}

/// Whether each selection lies in one of the ranges.
pub open spec fn all_inside(selections: Seq<EditorSelection>, ranges: Seq<(int, int)>) -> bool {
    forall|i: int|
        #![trigger selections[i]]
        0 <= i < selections.len() ==> is_inside(selections[i], ranges)
}

pub open spec fn is_inside(selection: EditorSelection, ranges: Seq<(int, int)>) -> bool {
    exists|k: int|
        #![trigger ranges[k]]
        0 <= k < ranges.len() && ranges[k].0 <= selection.range.start && selection.range.end
            <= ranges[k].1
}

fn check_inside(selection: EditorSelection, ranges: &Vec<Range<usize>>) -> (inside: bool)
    ensures
        inside == is_inside(selection, text::ranges_view(ranges@)),
{
    let ghost rv = text::ranges_view(ranges@);
    let mut k: usize = 0;
    while k < ranges.len()
        invariant
            k <= ranges@.len(),
            rv == text::ranges_view(ranges@),
            forall|j: int|
                #![trigger rv[j]]
                0 <= j < k ==> !(rv[j].0 <= selection.range.start && selection.range.end
                    <= rv[j].1),
        decreases ranges.len() - k,
    {
        assert(rv[k as int] == (ranges@[k as int].start as int, ranges@[k as int].end as int));
        if ranges[k].start <= selection.range.start && selection.range.end <= ranges[k].end {
            return true;
        }
        k = k + 1;
    }
    false
}

/// The session, as long as every selection lies in one of its active ranges.
pub open spec fn session_within(
    session: Option<SnippetSession>,
    selections: Seq<EditorSelection>,
) -> Option<SnippetSession> {
    match snippet_session::optional_model(session) {
        Some(model) => if all_inside(selections, model.active_ranges()) {
            session
        } else {
            None
        },
        None => session,
    }
}

impl InputState {
    pub fn has_active_snippet_session(&self) -> (active: bool)
        ensures
            active == self.snippet_session is Some,
    {
        self.snippet_session.is_some()
    }

    pub fn active_snippet_tabstop_index(&self) -> (index: Option<u32>)
        ensures
            index == (match snippet_session::optional_model(self.snippet_session) {
                Some(session) => if session.active < session.tabstops.len() {
                    Some(session.tabstops[session.active].0)
                } else {
                    None
                },
                None => None,
            }),
    {
        match &self.snippet_session {
            Some(session) => session.active_tabstop_index(),
            None => None,
        }
    }

    pub fn active_snippet_instance_count(&self) -> (count: usize)
        ensures
            count == (match snippet_session::optional_model(self.snippet_session) {
                Some(session) => session.instances,
                None => 0,
            }),
    {
        match &self.snippet_session {
            Some(session) => session.instance_count(),
            None => 0,
        }
    }

    pub fn active_snippet_tabstop_ranges(&self) -> (ranges: Vec<Range<usize>>)
        ensures
            text::ranges_view(ranges@) == (match snippet_session::optional_model(
                self.snippet_session,
            ) {
                Some(session) => session.active_ranges(),
                None => Seq::empty(),
            }),
    {
        match &self.snippet_session {
            Some(session) => session.active_ranges(),
            None => {
                let ranges: Vec<Range<usize>> = Vec::new();
                assert(text::ranges_view(ranges@) =~= Seq::<(int, int)>::empty());
                ranges
            },
        }
    }

    /// Ends the snippet session where a selection lies outside the active
    /// ranges. Returns whether it did.
    pub fn cancel_snippet_session_if_selection_outside(&mut self) -> (cancelled: bool)
        ensures
            cancelled == (match snippet_session::optional_model(old(self).snippet_session) {
                Some(session) => !all_inside(
                    old(self).all_selections(),
                    session.active_ranges(),
                ),
                None => false,
            }),
            *final(self) == if cancelled {
                InputState { snippet_session: None, ..*old(self) }
            } else {
                *old(self)
            },
    {
        if self.snippet_session.is_none() {
            return false;
        }
        let selections = self.selections();
        let ranges = self.active_snippet_tabstop_ranges();
        let ghost rv = text::ranges_view(ranges@);
        let mut i: usize = 0;
        while i < selections.len()
            invariant
                i <= selections@.len(),
                *self == *old(self),
                self.snippet_session is Some,
                selections@ == self.all_selections(),
                rv == text::ranges_view(ranges@),
                rv == snippet_session::session_model(self.snippet_session->Some_0).active_ranges(),
                forall|k: int|
                    #![trigger selections@[k]]
                    0 <= k < i ==> is_inside(selections@[k], rv),
            decreases selections.len() - i,
        {
            if !check_inside(selections[i], &ranges) {
                assert(!is_inside(selections@[i as int], rv));
                self.snippet_session = None;
                return true;
            }
            i = i + 1;
        }
        false
    }

    /// Selects the ranges for a session, or ends it where they cannot be.
    fn select_snippet_ranges(
        &mut self,
        session: Option<SnippetSession>,
        ranges: &Vec<Range<usize>>,
    )
        requires
            old(self).wf(),
        ensures
            selected_ranges(
                *old(self),
                *final(self),
                snippet_session::optional_model(session),
                text::ranges_view(ranges@),
            ),
            final(self).wf(),
            state::same_document(*old(self), *final(self)),
    {
        let document = self.document();
        let ghost rv = text::ranges_view(ranges@);
        if ranges.len() == 0 || !check_within(ranges, document.len()) {
            self.snippet_session = None;
            assert(self.all_selections() =~= old(self).all_selections());
            return;
        }
        let mut selections: Vec<EditorSelection> = Vec::new();
        while selections.len() < ranges.len()
            invariant
                selections@.len() <= ranges@.len(),
                rv == text::ranges_view(ranges@),
                forall|k: int|
                    0 <= k < selections@.len() ==> #[trigger] selections@[k] == ranges_selected(
                        rv,
                    )[k],
            decreases ranges.len() - selections.len(),
        {
            let i: usize = selections.len();
            assert(rv[i as int] == (ranges@[i as int].start as int, ranges@[i as int].end as int));
            selections.push(
                EditorSelection::from_anchor_and_head(ranges[i].start, ranges[i].end),
            );
        }
        assert(selections@ =~= ranges_selected(rv));
        self.set_editor_selections_internal(&selections);
        let ghost settled = *self;
        self.snippet_session = session;
        self.occurrence_session = None;
        assert(self.all_selections() =~= settled.all_selections());
    }

    /// Starts visiting the tab stops of a snippet that was inserted at the
    /// starts, and selects the first of them.
    pub fn start_snippet_sessions(&mut self, parsed: &ParsedSnippet, insertion_starts: &[usize])
        requires
            old(self).wf(),
        ensures
            is_started(
                *old(self),
                *final(self),
                snippet::tabstops_view(parsed.tabstops@),
                insertion_starts@,
            ),
            final(self).wf(),
    {
        if insertion_starts.len() > cursors::MAX_EDITOR_SELECTIONS || !check_distinct(
            insertion_starts,
        ) {
            self.snippet_session = None;
            assert(self.all_selections() =~= old(self).all_selections());
            return;
        }
        match SnippetSession::new_many(parsed, insertion_starts) {
            None => {
                self.snippet_session = None;
                assert(self.all_selections() =~= old(self).all_selections());
            },
            Some(session) => {
                let ranges = session.active_ranges();
                assert(text::ranges_view(ranges@).len() == ranges@.len());
                if ranges.len() != insertion_starts.len() {
                    self.snippet_session = None;
                    assert(self.all_selections() =~= old(self).all_selections());
                    return;
                }
                let kept = if session.active_is_final() {
                    None
                } else {
                    Some(session)
                };
                self.select_snippet_ranges(kept, &ranges);
            },
        }
    }

    /// Makes the mirrors of the active tab stop read like it. Returns whether
    /// the session goes on.
    pub fn synchronize_active_snippet_mirrors(&mut self) -> (synchronized: bool)
        requires
            old(self).wf(),
            old(self).text_version < usize::MAX,
        ensures
            is_synchronized(*old(self), *final(self)),
            synchronized == final(self).snippet_session is Some,
            final(self).wf(),
    {
        let taken = self.snippet_session.take();
        assert(self.all_selections() =~= old(self).all_selections());
        let mut session = match taken {
            None => {
                return false;
            },
            Some(session) => session,
        };
        let ghost model = snippet_session::session_model(session);
        let document = self.document();
        let ranges = session.active_ranges();
        assert(text::ranges_view(ranges@).len() == ranges@.len());
        if ranges.len() == 0 || !check_readable(&document, &ranges) {
            return false;
        }
        let mirrors = collect_mirrors(&session, &document, &ranges);
        let (sorted, _) = edit::sort_edits(&mirrors);
        let ghost edits = edit::edits_view(sorted@);
        let ghost start = SyncModel {
            text: old(self).bytes(),
            session: model,
            selections: old(self).all_selections(),
            going: true,
            changed: false,
        };
        let mut going = true;
        let mut changed = false;
        let mut selections = self.selections();
        let mut n: usize = sorted.len();
        while n > 0 && going
            invariant
                n <= sorted@.len(),
                edits == edit::edits_view(sorted@),
                state::same_document(
                    InputState { text: self.text, ..*old(self) },
                    *self,
                ),
                self.selected_range == old(self).selected_range,
                self.selection_reversed == old(self).selection_reversed,
                self.secondary_selections == old(self).secondary_selections,
                self.occurrence_session == old(self).occurrence_session,
                self.snippet_session is None,
                synced(start, edits, edits.len() as int) == synced(
                    SyncModel {
                        text: self.bytes(),
                        session: snippet_session::session_model(session),
                        selections: selections@,
                        going,
                        changed,
                    },
                    edits,
                    n as int,
                ),
                selections@.len() == old(self).all_selections().len(),
            decreases n,
        {
            let document = self.document();
            let from: usize = sorted[n - 1].0.start;
            let to: usize = sorted[n - 1].0.end;
            let ghost e = edits[n - 1];
            assert(e == edit::edit_view(sorted@[n - 1]));
            if from > to || to > document.len() || !document.is_char_boundary(from)
                || !document.is_char_boundary(to) {
                going = false;
            } else {
                let held = document.slice(from, to);
                if !lines::equal_bytes(
                    held.as_str().as_bytes(),
                    sorted[n - 1].1.as_str().as_bytes(),
                ) {
                    let ghost before = self.bytes();
                    let size: usize = sorted[n - 1].1.as_str().as_bytes().len();
                    proof {
                        encode_utf8_valid_utf8(rope::rope_chars(self.text));
                        lemma_cut(rope::rope_chars(self.text), from as int, to as int);
                    }
                    rope::rope_remove(&mut self.text, from, to);
                    rope::rope_insert(&mut self.text, from, sorted[n - 1].1.as_str());
                    assert(self.bytes() =~= edit::replaced(before, e));
                    session.track_edit(from..to, size);
                    selections = shift_selections(&selections, from..to, size);
                    changed = true;
                }
            }
            n = n - 1;
        }
        proof {
            lemma_synced_stops(
                SyncModel {
                    text: self.bytes(),
                    session: snippet_session::session_model(session),
                    selections: selections@,
                    going,
                    changed,
                },
                edits,
                n as int,
            );
        }
        if changed {
            self.text_version = self.text_version + 1;
            self.set_editor_selections_internal(&selections);
        } else {
            proof {
                lemma_synced_unchanged(start, edits, edits.len() as int);
                assert(self.all_selections() =~= old(self).all_selections());
            }
        }
        let ghost settled = *self;
        if going {
            self.snippet_session = Some(session);
        }
        assert(self.all_selections() =~= settled.all_selections());
        going
    }

    /// Goes to the next tab stop. Returns whether there was a session; it
    /// ends at the last tab stop.
    pub fn move_to_next_snippet_tabstop(&mut self) -> (handled: bool)
        requires
            old(self).wf(),
            old(self).text_version < usize::MAX,
        ensures
            handled == old(self).snippet_session is Some,
            exists|middle: InputState|
                is_synchronized(*old(self), middle) && #[trigger] next_visited(
                    middle,
                    *final(self),
                ),
            final(self).wf(),
    {
        let had = self.snippet_session.is_some();
        self.synchronize_active_snippet_mirrors();
        let ghost middle = *self;
        let taken = self.snippet_session.take();
        assert(self.all_selections() =~= middle.all_selections());
        match taken {
            None => {
                assert(*self == middle);
                assert(next_visited(middle, *self));
                had
            },
            Some(held) => {
                let ghost model = snippet_session::session_model(held);
                let ghost next = SnippetModel { active: model.active + 1, ..model };
                let mut session = held;
                if session.move_next().is_none() {
                    assert(next_visited(middle, *self));
                    return true;
                }
                assert(snippet_session::session_model(session) == next);
                let ranges = session.active_ranges();
                let kept = if session.active_is_final() {
                    None
                } else {
                    Some(session)
                };
                assert(snippet_session::optional_model(kept) == kept_session(next));
                self.select_snippet_ranges(kept, &ranges);
                assert(next_visited(middle, *self));
                true
            },
        }
    }

    /// Goes to the previous tab stop. Returns whether there was a session.
    pub fn move_to_previous_snippet_tabstop(&mut self) -> (handled: bool)
        requires
            old(self).wf(),
            old(self).text_version < usize::MAX,
        ensures
            handled == old(self).snippet_session is Some,
            exists|middle: InputState|
                is_synchronized(*old(self), middle) && #[trigger] previous_visited(
                    middle,
                    *final(self),
                ),
            final(self).wf(),
    {
        let had = self.snippet_session.is_some();
        self.synchronize_active_snippet_mirrors();
        let ghost middle = *self;
        let taken = self.snippet_session.take();
        assert(self.all_selections() =~= middle.all_selections());
        match taken {
            None => {
                assert(*self == middle);
                assert(previous_visited(middle, *self));
                had
            },
            Some(held) => {
                let mut session = held;
                let moved = session.move_previous().is_some();
                if moved {
                    let ranges = session.active_ranges();
                    self.select_snippet_ranges(Some(session), &ranges);
                } else {
                    self.snippet_session = Some(session);
                    assert(self.all_selections() =~= middle.all_selections());
                }
                assert(previous_visited(middle, *self));
                true
            },
        }
    }
}

/// What starting to visit the tab stops of a snippet does.
pub open spec fn is_started(
    before: InputState,
    after: InputState,
    tabstops: Seq<(u32, Seq<(int, int)>)>,
    starts: Seq<usize>,
) -> bool {
    let session = snippet_session::new_session(tabstops, starts);
    &&& state::same_document(before, after)
    &&& if starts.len() <= cursors::MAX_EDITOR_SELECTIONS && all_distinct(starts) && session is Some
        && (session->Some_0).active_ranges().len() == starts.len() {
        selected_ranges(
            before,
            after,
            kept_session(session->Some_0),
            (session->Some_0).active_ranges(),
        )
    } else {
        after == (InputState { snippet_session: None, ..before })
    }
}

/// What going to the next tab stop does once the mirrors are in step.
pub open spec fn next_visited(before: InputState, after: InputState) -> bool {
    match snippet_session::optional_model(before.snippet_session) {
        None => after == before,
        Some(session) => {
            let next = SnippetModel { active: session.active + 1, ..session };
            if session.active + 1 >= session.tabstops.len() || next.active_ranges().len() == 0 {
                after == (InputState { snippet_session: None, ..before })
            } else {
                selected_ranges(before, after, kept_session(next), next.active_ranges())
                    && state::same_document(before, after)
            }
        },
    }
}

/// What going to the previous tab stop does once the mirrors are in step.
pub open spec fn previous_visited(before: InputState, after: InputState) -> bool {
    match snippet_session::optional_model(before.snippet_session) {
        None => after == before,
        Some(session) => {
            let previous = SnippetModel {
                active: if session.active == 0 {
                    0
                } else {
                    session.active - 1
                },
                ..session
            };
            &&& state::same_document(before, after)
            &&& if previous.active_ranges().len() == 0 {
                &&& snippet_session::optional_model(after.snippet_session) == Some(previous)
                &&& after.all_selections() == before.all_selections()
                &&& after.occurrence_session == before.occurrence_session
            } else {
                selected_ranges(before, after, Some(previous), previous.active_ranges())
            }
        },
    }
}

/// How far bringing the mirrors into step has come.
pub struct SyncModel {
    pub text: Seq<u8>,
    pub session: SnippetModel,
    pub selections: Seq<EditorSelection>,
    pub going: bool,
    pub changed: bool,
}

/// Where an offset comes to lie after one edit: what lies behind it moves.
pub open spec fn moved_behind(offset: int, edit: (int, int), inserted: int) -> int {
    if offset >= edit.1 {
        snippet_session::clamp(offset + snippet_session::edit_growth(edit, inserted))
    } else {
        offset
    }
}

pub open spec fn selection_behind(
    selection: EditorSelection,
    edit: (int, int),
    inserted: int,
) -> EditorSelection {
    EditorSelection {
        range: cursor::Selection {
            start: moved_behind(selection.range.start as int, edit, inserted) as usize,
            end: moved_behind(selection.range.end as int, edit, inserted) as usize,
        },
        reversed: selection.reversed,
    }
}

/// Whether the range can be read from the text.
pub open spec fn is_readable(t: Seq<u8>, range: (int, int)) -> bool {
    0 <= range.0 <= range.1 <= t.len() && text::is_boundary(t, range.0) && text::is_boundary(
        t,
        range.1,
    )
}

pub open spec fn all_readable(t: Seq<u8>, ranges: Seq<(int, int)>) -> bool {
    forall|i: int| #![trigger ranges[i]] 0 <= i < ranges.len() ==> is_readable(t, ranges[i])
}

/// Brings the first `n` mirrors into step, the last one first. It stops at a
/// mirror that cannot be read.
pub open spec fn synced(m: SyncModel, edits: Seq<(int, int, Seq<u8>)>, n: int) -> SyncModel
    decreases n,
{
    if n <= 0 || !m.going {
        m
    } else {
        let e = edits[n - 1];
        if !is_readable(m.text, (e.0, e.1)) {
            SyncModel { going: false, ..m }
        } else if m.text.subrange(e.0, e.1) == e.2 {
            synced(m, edits, n - 1)
        } else {
            synced(
                SyncModel {
                    text: edit::replaced(m.text, e),
                    session: m.session.after_edit((e.0, e.1), e.2.len() as int, None),
                    selections: Seq::new(
                        m.selections.len(),
                        |i: int|
                            selection_behind(m.selections[i], (e.0, e.1), e.2.len() as int),
                    ),
                    changed: true,
                    ..m
                },
                edits,
                n - 1,
            )
        }
    }
}

proof fn lemma_synced_stops(m: SyncModel, edits: Seq<(int, int, Seq<u8>)>, n: int)
    requires
        n <= 0 || !m.going,
    ensures
        synced(m, edits, n) == m,
{
}

proof fn lemma_synced_unchanged(m: SyncModel, edits: Seq<(int, int, Seq<u8>)>, n: int)
    ensures
        m.changed ==> synced(m, edits, n).changed,
        !synced(m, edits, n).changed ==> synced(m, edits, n).text == m.text && synced(
            m,
            edits,
            n,
        ).selections == m.selections && synced(m, edits, n).session == m.session,
    decreases n,
{
    if n > 0 && m.going {
        let e = edits[n - 1];
        if is_readable(m.text, (e.0, e.1)) {
            if m.text.subrange(e.0, e.1) == e.2 {
                lemma_synced_unchanged(m, edits, n - 1);
            } else {
                let next = SyncModel {
                    text: edit::replaced(m.text, e),
                    session: m.session.after_edit((e.0, e.1), e.2.len() as int, None),
                    selections: Seq::new(
                        m.selections.len(),
                        |i: int| selection_behind(m.selections[i], (e.0, e.1), e.2.len() as int),
                    ),
                    changed: true,
                    ..m
                };
                lemma_synced_unchanged(next, edits, n - 1);
            }
        }
    }
}

/// The edits that make the mirrors of the first `n` insertions read like
/// their active ranges.
pub open spec fn mirror_edits(t: Seq<u8>, session: SnippetModel, n: int) -> Seq<
    (int, int, Seq<u8>),
>
    decreases n,
{
    if n <= 0 {
        Seq::empty()
    } else {
        let places = session.tabstops[session.active].1;
        let stride = session.stride();
        let active = session.active_ranges()[n - 1];
        mirror_edits(t, session, n - 1) + Seq::new(
            (stride - 1) as nat,
            |j: int|
                {
                    let mirror = places[(n - 1) * stride + 1 + j];
                    (mirror.0, mirror.1, t.subrange(active.0, active.1))
                },
        )
    }
}

/// What bringing the mirrors into step does.
pub open spec fn is_synchronized(before: InputState, after: InputState) -> bool {
    match snippet_session::optional_model(before.snippet_session) {
        None => after == before,
        Some(session) => if session.active_ranges().len() == 0 || !all_readable(
            before.bytes(),
            session.active_ranges(),
        ) {
            after == (InputState { snippet_session: None, ..before })
        } else {
            let edits = edit::sorted_edits(
                mirror_edits(before.bytes(), session, session.instances),
            );
            let result = synced(
                SyncModel {
                    text: before.bytes(),
                    session,
                    selections: before.all_selections(),
                    going: true,
                    changed: false,
                },
                edits,
                edits.len() as int,
            );
            &&& after.bytes() == result.text
            &&& snippet_session::optional_model(after.snippet_session) == if result.going {
                Some(result.session)
            } else {
                None
            }
            &&& after.all_selections() == if result.changed {
                cursors::normalized(result.text, result.selections, before.primary())
            } else {
                before.all_selections()
            }
            &&& after.text_version == before.text_version + if result.changed {
                1int
            } else {
                0int
            }
            &&& after.occurrence_session == before.occurrence_session
            &&& state::same_document(
                InputState { text: after.text, text_version: after.text_version, ..before },
                after,
            )
        },
    }
}

/// The text without a range is a text, and where the range was is a boundary.
pub proof fn lemma_cut(s: Seq<char>, from: int, to: int)
    requires
        0 <= from <= to <= encode_utf8(s).len(),
        text::is_boundary(encode_utf8(s), from),
        text::is_boundary(encode_utf8(s), to),
    ensures
        ({
            let t = encode_utf8(s);
            text::is_boundary(t.subrange(0, from) + t.subrange(to, t.len() as int), from)
        }),
{
    let t = encode_utf8(s);
    let cut = t.subrange(0, from) + t.subrange(to, t.len() as int);
    if 0 < from < cut.len() {
        assert(cut[from] == t[to]);
    }
}

pub fn check_readable(document: &Document, ranges: &Vec<Range<usize>>) -> (readable: bool)
    requires
        document.wf(),
    ensures
        readable == all_readable(document.bytes(), text::ranges_view(ranges@)),
{
    let ghost rv = text::ranges_view(ranges@);
    let mut i: usize = 0;
    while i < ranges.len()
        invariant
            i <= ranges@.len(),
            document.wf(),
            rv == text::ranges_view(ranges@),
            forall|k: int|
                #![trigger rv[k]]
                0 <= k < i ==> is_readable(document.bytes(), rv[k]),
        decreases ranges.len() - i,
    {
        assert(rv[i as int] == (ranges@[i as int].start as int, ranges@[i as int].end as int));
        if ranges[i].start > ranges[i].end || ranges[i].end > document.len()
            || !document.is_char_boundary(ranges[i].start) || !document.is_char_boundary(
            ranges[i].end,
        ) {
            assert(!is_readable(document.bytes(), rv[i as int]));
            return false;
        }
        i = i + 1;
    }
    true
}

fn move_behind(offset: usize, edit: &Range<usize>, inserted: usize) -> (moved: usize)
    ensures
        moved == moved_behind(offset as int, (edit.start as int, edit.end as int), inserted as int),
{
    if offset < edit.end {
        return offset;
    }
    let removed: usize = if edit.end >= edit.start {
        edit.end - edit.start
    } else {
        0
    };
    let sum: i128 = offset as i128 + inserted as i128 - removed as i128;
    if sum < 0 {
        0
    } else if sum > usize::MAX as i128 {
        usize::MAX
    } else {
        sum as usize
    }
}

/// The selections after one edit.
fn shift_selections(
    selections: &Vec<EditorSelection>,
    edit: Range<usize>,
    inserted: usize,
) -> (moved: Vec<EditorSelection>)
    ensures
        moved@ == Seq::new(
            selections@.len(),
            |i: int|
                selection_behind(
                    selections@[i],
                    (edit.start as int, edit.end as int),
                    inserted as int,
                ),
        ),
{
    let mut moved: Vec<EditorSelection> = Vec::new();
    while moved.len() < selections.len()
        invariant
            moved@.len() <= selections@.len(),
            forall|k: int|
                0 <= k < moved@.len() ==> #[trigger] moved@[k] == selection_behind(
                    selections@[k],
                    (edit.start as int, edit.end as int),
                    inserted as int,
                ),
        decreases selections.len() - moved.len(),
    {
        let selection = selections[moved.len()];
        let start: usize = move_behind(selection.range.start, &edit, inserted);
        let end: usize = move_behind(selection.range.end, &edit, inserted);
        moved.push(
            EditorSelection {
                range: cursor::Selection { start, end },
                reversed: selection.reversed,
            },
        );
    }
    assert(moved@ =~= Seq::new(
        selections@.len(),
        |i: int|
            selection_behind(
                selections@[i],
                (edit.start as int, edit.end as int),
                inserted as int,
            ),
    ));
    moved
}

/// The edits that make the mirrors read like their active ranges.
fn collect_mirrors(
    session: &SnippetSession,
    document: &Document,
    ranges: &Vec<Range<usize>>,
) -> (edits: Vec<(Range<usize>, String)>)
    requires
        document.wf(),
        ranges@.len() > 0,
        text::ranges_view(ranges@) == snippet_session::session_model(*session).active_ranges(),
        all_readable(document.bytes(), text::ranges_view(ranges@)),
    ensures
        edit::edits_view(edits@) == mirror_edits(
            document.bytes(),
            snippet_session::session_model(*session),
            session.instances as int,
        ),
{
    let ghost model = snippet_session::session_model(*session);
    let ghost t = document.bytes();
    let ghost rv = text::ranges_view(ranges@);
    assert(rv.len() == ranges@.len());
    assert(model.has_active());
    let places = &session.tabstops[session.active].ranges;
    let ghost pv = text::ranges_view(places@);
    assert(model.tabstops[model.active].1 == pv);
    let stride: usize = places.len() / session.instances;
    let mut edits: Vec<(Range<usize>, String)> = Vec::new();
    let mut n: usize = 0;
    assert(edit::edits_view(edits@) =~= mirror_edits(t, model, 0));
    while n < session.instances
        invariant
            n <= session.instances,
            document.wf(),
            t == document.bytes(),
            model == snippet_session::session_model(*session),
            model.has_active(),
            rv == text::ranges_view(ranges@),
            rv == model.active_ranges(),
            rv.len() == session.instances,
            ranges@.len() == rv.len(),
            all_readable(t, rv),
            places == session.tabstops@[session.active as int].ranges,
            pv == text::ranges_view(places@),
            model.tabstops[model.active].1 == pv,
            stride == model.stride(),
            edit::edits_view(edits@) == mirror_edits(t, model, n as int),
        decreases session.instances - n,
    {
        assert(rv[n as int] == (ranges@[n as int].start as int, ranges@[n as int].end as int));
        proof {
            lemma_stride_of(places@.len() as int, session.instances as int, n as int);
            assert(places.len() == places@.len());
        }
        let value = document.slice(ranges[n].start, ranges[n].end);
        let ghost before = edit::edits_view(edits@);
        let ghost more = Seq::new(
            (stride - 1) as nat,
            |j: int|
                {
                    let mirror = pv[n * stride + 1 + j];
                    (mirror.0, mirror.1, t.subrange(rv[n as int].0, rv[n as int].1))
                },
        );
        let base: usize = n * stride;
        let mut j: usize = 0;
        assert(before + more.take(0) =~= before);
        while j < stride - 1
            invariant
                stride >= 1,
                j <= stride - 1,
                base == n * stride,
                base + stride <= places@.len(),
                places.len() == places@.len(),
                pv == text::ranges_view(places@),
                encode_utf8(value@) == t.subrange(rv[n as int].0, rv[n as int].1),
                more == Seq::new(
                    (stride - 1) as nat,
                    |j: int|
                        {
                            let mirror = pv[n * stride + 1 + j];
                            (mirror.0, mirror.1, t.subrange(rv[n as int].0, rv[n as int].1))
                        },
                ),
                edit::edits_view(edits@) == before + more.take(j as int),
            decreases stride - 1 - j,
        {
            let at: usize = base + 1 + j;
            let ghost held = edits@;
            edits.push((places[at].start..places[at].end, value.clone()));
            proof {
                assert(pv[at as int] == (places@[at as int].start as int, places@[at as int].end as int));
                assert(more[j as int] == edit::edit_view(edits@[held.len() as int]));
                assert(edit::edits_view(edits@) =~= edit::edits_view(held).push(more[j as int]));
                assert(more.take(j + 1) =~= more.take(j as int).push(more[j as int]));
                assert(before + more.take(j + 1) =~= (before + more.take(j as int)).push(
                    more[j as int],
                ));
            }
            j = j + 1;
        }
        assert(more.take(stride - 1) =~= more);
        n = n + 1;
        assert(mirror_edits(t, model, n as int) =~= before + more);
    }
    edits
}

proof fn lemma_stride_of(count: int, instances: int, k: int)
    requires
        0 < instances <= count,
        0 <= k < instances,
    ensures
        count / instances >= 1,
        0 <= k * (count / instances),
        k * (count / instances) + count / instances <= count,
{
    let stride = count / instances;
    assert(stride >= 1 && stride * instances <= count) by (nonlinear_arith)
        requires
            0 < instances <= count,
            stride == count / instances,
    ;
    assert(k * stride + stride <= stride * instances && 0 <= k * stride) by (nonlinear_arith)
        requires
            0 <= k < instances,
            stride >= 1,
    ;
}

} // verus!
