//! Changing the text and the selections together.

use crate::cursor;
use crate::cursor::EditorSelection;
use crate::edit;
use crate::multi_cursor as cursors;
use crate::order;
use crate::rope;
use crate::snippet_session;
use crate::snippet_session::{SnippetModel, SnippetSession};
use crate::state;
use crate::state::{InputState, SelectionHistoryEntry};
use crate::text;
use crate::text::Document;
use ropey::Rope;
use std::ops::Range;
use vstd::prelude::*;
use vstd::string::*;
use vstd::utf8::*;

verus! {

pub const MAX_SELECTION_HISTORY: usize = 1_000;

/// The edits can be made: each is a range of the text on boundaries, they lie
/// one after the other, and the new text is not too long.
pub open spec fn are_applicable(t: Seq<u8>, edits: Seq<(int, int, Seq<u8>)>) -> bool {
    &&& edits.len() > 0
    &&& edit::edits_ordered(edits, t.len() as int)
    &&& forall|i: int|
        #![trigger edits[i]]
        0 <= i < edits.len() ==> text::is_boundary(t, edits[i].0) && text::is_boundary(
            t,
            edits[i].1,
        )
    &&& t.len() + edit::added(edits, edits.len() as int) <= usize::MAX
}

/// Whether the edits can be made.
pub fn check_applicable(document: &Document, edits: &Vec<(Range<usize>, String)>) -> (applicable:
    bool)
    requires
        document.wf(),
    ensures
        applicable == are_applicable(document.bytes(), edit::edits_view(edits@)),
{
    let ghost t = document.bytes();
    let ghost ev = edit::edits_view(edits@);
    if edits.len() == 0 {
        return false;
    }
    let len: usize = document.len();
    let mut total: usize = len;
    let mut end: usize = 0;
    let mut i: usize = 0;
    while i < edits.len()
        invariant
            i <= edits@.len(),
            document.wf(),
            t == document.bytes(),
            len == t.len(),
            ev == edit::edits_view(edits@),
            total == t.len() + edit::added(ev, i as int),
            end <= len,
            i > 0 ==> end == ev[i - 1].1,
            forall|k: int|
                #![trigger ev[k]]
                0 <= k < i ==> 0 <= ev[k].0 <= ev[k].1 <= t.len() && ev[k].1 <= end
                    && text::is_boundary(t, ev[k].0) && text::is_boundary(t, ev[k].1),
            forall|j: int, k: int|
                #![trigger ev[j], ev[k]]
                0 <= j < k < i ==> ev[j].1 <= ev[k].0,
        decreases edits.len() - i,
    {
        let start: usize = edits[i].0.start;
        let stop: usize = edits[i].0.end;
        let size: usize = edits[i].1.as_str().as_bytes().len();
        proof {
            assert(ev[i as int] == edit::edit_view(edits@[i as int]));
            edit::lemma_added_monotonic(ev, i + 1, ev.len() as int);
        }
        if start > stop || stop > len || !document.is_char_boundary(start)
            || !document.is_char_boundary(stop) {
            return false;
        }
        if i > 0 && start < end {
            assert(ev[i - 1].1 > ev[i as int].0);
            return false;
        }
        if size > usize::MAX - total {
            return false;
        }
        total = total + size;
        end = stop;
        i = i + 1;
    }
    true
}

/// Making an edit keeps what lies before it, and its boundaries.
proof fn lemma_replaced(t: Seq<u8>, cur: Seq<u8>, e: (int, int, Seq<u8>), bound: int, s: Seq<char>)
    requires
        0 <= e.0 <= e.1 <= bound <= t.len(),
        bound <= cur.len(),
        cur.subrange(0, bound) == t.subrange(0, bound),
        text::is_boundary(cur, e.0),
        text::is_boundary(cur, e.1),
        e.2 == encode_utf8(s),
    ensures
        e.0 <= edit::replaced(cur, e).len(),
        edit::replaced(cur, e).subrange(0, e.0) == t.subrange(0, e.0),
        forall|o: int|
            0 <= o <= e.0 && #[trigger] text::is_boundary(t, o) ==> text::is_boundary(
                edit::replaced(cur, e),
                o,
            ),
{
    let next = edit::replaced(cur, e);
    assert forall|i: int| 0 <= i < e.0 implies next[i] == t[i] by {
        assert(cur.subrange(0, bound)[i] == t.subrange(0, bound)[i]);
    }
    assert(next.subrange(0, e.0) =~= t.subrange(0, e.0));
    encode_utf8_valid_utf8(s);
    assert forall|o: int| 0 <= o <= e.0 && #[trigger] text::is_boundary(t, o) implies text::is_boundary(
        next,
        o,
    ) by {
        if o == e.0 && o < next.len() {
            if e.2.len() > 0 {
                assert(next[o] == e.2[0]);
                assert(valid_first_scalar(e.2));
            } else {
                assert(next[o] == cur[e.1]);
                if e.1 == 0 {
                    assert(o == 0);
                }
            }
        }
    }
}

/// Makes the edits, the last one first.
pub(crate) fn apply_edits(text: &mut Rope, edits: &Vec<(Range<usize>, String)>)
    requires
        are_applicable(rope::rope_bytes(*old(text)), edit::edits_view(edits@)),
    ensures
        rope::rope_bytes(*final(text)) == edit::applied(
            rope::rope_bytes(*old(text)),
            edit::edits_view(edits@),
        ),
{
    let ghost t = rope::rope_bytes(*text);
    let ghost ev = edit::edits_view(edits@);
    let mut n: usize = edits.len();
    let ghost mut bound: int = t.len() as int;
    assert(ev.take(n as int) =~= ev);
    while n > 0
        invariant
            n <= edits@.len(),
            ev == edit::edits_view(edits@),
            are_applicable(t, ev),
            bound == (if n < ev.len() {
                ev[n as int].0
            } else {
                t.len() as int
            }),
            bound <= t.len(),
            bound <= rope::rope_bytes(*text).len(),
            rope::rope_bytes(*text).subrange(0, bound) == t.subrange(0, bound),
            forall|o: int|
                0 <= o <= bound && #[trigger] text::is_boundary(t, o) ==> text::is_boundary(
                    rope::rope_bytes(*text),
                    o,
                ),
            edit::applied(rope::rope_bytes(*text), ev.take(n as int)) == edit::applied(t, ev),
        decreases n,
    {
        let ghost cur = rope::rope_bytes(*text);
        let ghost e = ev[n - 1];
        let start: usize = edits[n - 1].0.start;
        let end: usize = edits[n - 1].0.end;
        proof {
            assert(e == edit::edit_view(edits@[n - 1]));
            if n < ev.len() {
                assert(ev[n - 1].1 <= ev[n as int].0);
            }
            assert(text::is_boundary(t, e.0));
            assert(text::is_boundary(t, e.1));
            lemma_replaced(t, cur, e, bound, edits@[n - 1].1@);
            lemma_replaced(t, cur, (e.0, e.1, Seq::empty()), bound, Seq::empty());
            assert(encode_utf8(Seq::<char>::empty()) =~= Seq::<u8>::empty());
        }
        rope::rope_remove(text, start, end);
        let ghost shorter = rope::rope_bytes(*text);
        assert(shorter =~= edit::replaced(cur, (e.0, e.1, Seq::empty())));
        rope::rope_insert(text, start, edits[n - 1].1.as_str());
        proof {
            assert(rope::rope_bytes(*text) =~= edit::replaced(cur, e));
            assert(ev.take(n as int).last() == e);
            assert(ev.take(n as int).drop_last() =~= ev.take(n - 1));
            bound = e.0;
        }
        n = n - 1;
    }
}

/// The past selections as plain values.
pub open spec fn history_view(history: Seq<SelectionHistoryEntry>) -> Seq<
    (usize, Seq<EditorSelection>, Seq<EditorSelection>),
> {
    Seq::new(history.len(), |i: int| (history[i].version, history[i].before@, history[i].after@))
}

/// Index of the first entry from `from` on whose version is at least `version`.
pub open spec fn history_index(
    history: Seq<(usize, Seq<EditorSelection>, Seq<EditorSelection>)>,
    version: usize,
    from: int,
) -> int
    decreases history.len() - from,
{
    if from < 0 || from >= history.len() || history[from].0 >= version {
        from
    } else {
        history_index(history, version, from + 1)
    }
}

/// The entries with that of `version` set: one that exists keeps the
/// selections from before it.
pub open spec fn with_entry(
    history: Seq<(usize, Seq<EditorSelection>, Seq<EditorSelection>)>,
    version: usize,
    before: Seq<EditorSelection>,
    after: Seq<EditorSelection>,
) -> Seq<(usize, Seq<EditorSelection>, Seq<EditorSelection>)> {
    let at = history_index(history, version, 0);
    if at < history.len() && history[at].0 == version {
        history.update(at, (version, history[at].1, after))
    } else {
        history.insert(at, (version, before, after))
    }
}

/// The history once an edit has been recorded: nothing where the selections
/// stayed, and of many entries only the latest.
pub open spec fn recorded(
    history: Seq<(usize, Seq<EditorSelection>, Seq<EditorSelection>)>,
    version: usize,
    before: Seq<EditorSelection>,
    after: Seq<EditorSelection>,
) -> Seq<(usize, Seq<EditorSelection>, Seq<EditorSelection>)> {
    if before == after {
        history
    } else {
        let all = with_entry(history, version, before, after);
        if all.len() > MAX_SELECTION_HISTORY {
            all.skip(all.len() - MAX_SELECTION_HISTORY)
        } else {
            all
        }
    }
}

proof fn lemma_history_index(
    history: Seq<(usize, Seq<EditorSelection>, Seq<EditorSelection>)>,
    version: usize,
    from: int,
)
    requires
        0 <= from <= history.len(),
    ensures
        from <= history_index(history, version, from) <= history.len(),
    decreases history.len() - from,
{
    if from < history.len() && history[from].0 < version {
        lemma_history_index(history, version, from + 1);
    }
}

/// A copy of the selections.
fn copy_selections(selections: &Vec<EditorSelection>) -> (copy: Vec<EditorSelection>)
    ensures
        copy@ == selections@,
{
    let mut copy: Vec<EditorSelection> = Vec::new();
    while copy.len() < selections.len()
        invariant
            copy@.len() <= selections@.len(),
            copy@ == selections@.take(copy@.len() as int),
        decreases selections.len() - copy.len(),
    {
        let ghost k = copy@.len() as int;
        copy.push(selections[copy.len()]);
        assert(copy@ =~= selections@.take(k + 1));
    }
    assert(copy@ =~= selections@);
    copy
}

/// Records the selections around the edit of `version`.
pub(crate) fn record_selections(
    history: &mut Vec<SelectionHistoryEntry>,
    version: usize,
    before: Vec<EditorSelection>,
    after: Vec<EditorSelection>,
)
    ensures
        history_view(final(history)@) == recorded(
            history_view(old(history)@),
            version,
            before@,
            after@,
        ),
{
    if cursors::same_selections(&before, &after) {
        return;
    }
    let ghost hv = history_view(history@);
    let ghost first = before@;
    let ghost second = after@;
    let mut at: usize = 0;
    while at < history.len() && history[at].version < version
        invariant
            at <= history@.len(),
            hv == history_view(history@),
            history_index(hv, version, 0) == history_index(hv, version, at as int),
        decreases history.len() - at,
    {
        assert(hv[at as int].0 == history@[at as int].version);
        at = at + 1;
    }
    proof {
        if at < history@.len() {
            assert(hv[at as int].0 == history@[at as int].version);
        }
        assert(at == history_index(hv, version, 0));
    }
    if at < history.len() && history[at].version == version {
        let kept = copy_selections(&history[at].before);
        history[at] = SelectionHistoryEntry { version, before: kept, after };
        assert(history_view(history@) =~= with_entry(hv, version, first, second));
    } else {
        history.insert(at, SelectionHistoryEntry { version, before, after });
        assert(history_view(history@) =~= with_entry(hv, version, first, second));
    }
    let ghost all = history_view(history@);
    let ghost mut dropped: int = 0;
    assert(all.skip(0) =~= all);
    while history.len() > MAX_SELECTION_HISTORY
        invariant
            0 <= dropped <= all.len(),
            history@.len() == all.len() - dropped,
            history_view(history@) == all.skip(dropped),
            dropped > 0 ==> history@.len() >= MAX_SELECTION_HISTORY,
        decreases history.len(),
    {
        let ghost held = history@;
        history.remove(0);
        proof {
            assert(history_view(history@) =~= history_view(held).remove(0));
            assert(history_view(history@) =~= all.skip(dropped + 1));
            dropped = dropped + 1;
        }
    }
}

/// Position from `from` on of the first edit that belongs to selection `index`.
pub open spec fn owned_edit(owners: Seq<Option<usize>>, index: int, from: int) -> Option<int>
    decreases owners.len() - from,
{
    if from < 0 || from >= owners.len() {
        None
    } else if owners[from] is Some && owners[from]->Some_0 == index {
        Some(from)
    } else {
        owned_edit(owners, index, from + 1)
    }
}

/// The caret behind what edit `p` inserted, once all edits are made.
pub open spec fn caret_behind(edits: Seq<(int, int, Seq<u8>)>, p: int) -> EditorSelection {
    cursor::spec_caret((edits[p].0 + edits[p].2.len() + edit::growth(edits, p)) as usize)
}

/// The carets of the first `n` selections that own an edit.
pub open spec fn carets_behind(
    edits: Seq<(int, int, Seq<u8>)>,
    owners: Seq<Option<usize>>,
    n: int,
) -> Seq<EditorSelection>
    decreases n,
{
    if n <= 0 {
        Seq::empty()
    } else {
        let before = carets_behind(edits, owners, n - 1);
        match owned_edit(owners, n - 1, 0) {
            Some(p) => before.push(caret_behind(edits, p)),
            None => before,
        }
    }
}

/// The owners in the order of their edits.
pub open spec fn sorted_owners(
    edits: Seq<(int, int, Seq<u8>)>,
    owners: Seq<Option<usize>>,
) -> Seq<Option<usize>> {
    let order = order::sorted_order(edit::edit_keys(edits), edits.len() as int);
    Seq::new(edits.len(), |i: int| owners[order[i]])
}

/// The bytes of the first edit of the primary selection, else nothing.
pub open spec fn primary_insertion(
    edits: Seq<(int, int, Seq<u8>)>,
    owners: Seq<Option<usize>>,
) -> Seq<u8> {
    match owned_edit(owners, 0, 0) {
        Some(p) => edits[p].2,
        None => Seq::empty(),
    }
}

proof fn lemma_owned_edit(owners: Seq<Option<usize>>, index: int, from: int)
    requires
        0 <= from,
    ensures
        owned_edit(owners, index, from) matches Some(p) ==> from <= p < owners.len(),
    decreases owners.len() - from,
{
    if from < owners.len() {
        lemma_owned_edit(owners, index, from + 1);
    }
}

/// The caret behind each edit.
fn carets_of_edits(edits: &Vec<(Range<usize>, String)>, Ghost(len): Ghost<int>) -> (carets: Vec<
    EditorSelection,
>)
    requires
        edit::edits_ordered(edit::edits_view(edits@), len),
        0 <= len,
        len + edit::added(edit::edits_view(edits@), edits@.len() as int) <= usize::MAX,
    ensures
        carets@.len() == edits@.len(),
        forall|p: int|
            0 <= p < carets@.len() ==> #[trigger] carets@[p] == caret_behind(
                edit::edits_view(edits@),
                p,
            ),
{
    let ghost ev = edit::edits_view(edits@);
    let mut carets: Vec<EditorSelection> = Vec::new();
    let mut more: usize = 0;
    let mut less: usize = 0;
    let mut p: usize = 0;
    while p < edits.len()
        invariant
            p <= edits@.len(),
            ev == edit::edits_view(edits@),
            edit::edits_ordered(ev, len),
            0 <= len,
            len + edit::added(ev, edits@.len() as int) <= usize::MAX,
            more == edit::added(ev, p as int),
            less == edit::removed(ev, p as int),
            carets@.len() == p,
            forall|k: int| 0 <= k < p ==> #[trigger] carets@[k] == caret_behind(ev, k),
        decreases edits.len() - p,
    {
        proof {
            assert(ev[p as int] == edit::edit_view(edits@[p as int]));
            edit::lemma_removed(ev, len, p as int);
            edit::lemma_removed(ev, len, p + 1);
            edit::lemma_added_monotonic(ev, p + 1, ev.len() as int);
        }
        let start: usize = edits[p].0.start;
        let end: usize = edits[p].0.end;
        let size: usize = edits[p].1.as_str().as_bytes().len();
        let offset: usize = start - less + more + size;
        carets.push(EditorSelection::caret(offset));
        more = more + size;
        less = less + (end - start);
        p = p + 1;
    }
    carets
}

fn find_owned_edit(owners: &Vec<Option<usize>>, index: usize) -> (found: Option<usize>)
    ensures
        match found {
            Some(p) => owned_edit(owners@, index as int, 0) == Some(p as int) && p < owners@.len(),
            None => owned_edit(owners@, index as int, 0) is None,
        },
{
    let mut p: usize = 0;
    while p < owners.len()
        invariant
            p <= owners@.len(),
            owned_edit(owners@, index as int, 0) == owned_edit(owners@, index as int, p as int),
        decreases owners.len() - p,
    {
        match owners[p] {
            Some(owner) => {
                if owner == index {
                    return Some(p);
                }
            },
            None => {},
        }
        p = p + 1;
    }
    None
}

/// The snippet session once the first `n` edits are made, the last one first:
/// an edit outside the active tab stop ends it.
pub open spec fn followed_session(
    session: Option<SnippetModel>,
    edits: Seq<(int, int, Seq<u8>)>,
    n: int,
) -> Option<SnippetModel>
    decreases n,
{
    if n <= 0 {
        session
    } else {
        let edit = edits[n - 1];
        followed_session(
            match session {
                Some(session) => session.after_user_edit((edit.0, edit.1), edit.2.len() as int),
                None => None,
            },
            edits,
            n - 1,
        )
    }
}

pub(crate) fn follow_edits(session: Option<SnippetSession>, edits: &Vec<(Range<usize>, String)>) -> (result:
    Option<SnippetSession>)
    ensures
        snippet_session::optional_model(result) == followed_session(
            snippet_session::optional_model(session),
            edit::edits_view(edits@),
            edits@.len() as int,
        ),
{
    let ghost ev = edit::edits_view(edits@);
    let ghost start = snippet_session::optional_model(session);
    let mut current = session;
    let mut n: usize = edits.len();
    while n > 0
        invariant
            n <= edits@.len(),
            ev == edit::edits_view(edits@),
            followed_session(start, ev, edits@.len() as int) == followed_session(
                snippet_session::optional_model(current),
                ev,
                n as int,
            ),
        decreases n,
    {
        let size: usize = edits[n - 1].1.as_str().as_bytes().len();
        assert(ev[n - 1] == edit::edit_view(edits@[n - 1]));
        current = match current {
            Some(held) => {
                let mut session = held;
                if session.track_user_edit(edits[n - 1].0.start..edits[n - 1].0.end, size) {
                    Some(session)
                } else {
                    None
                }
            },
            None => None,
        };
        n = n - 1;
    }
    current
}

/// What one step of the history does to everything but what language servers
/// told: the text and the snippet session become those given, the selections
/// those of the list.
pub open spec fn is_step(
    before: InputState,
    after: InputState,
    text: Seq<u8>,
    selections: Seq<EditorSelection>,
    session: Option<SnippetModel>,
) -> bool {
    &&& after.bytes() == text
    &&& after.all_selections() == cursors::normalized(text, selections, before.primary())
    &&& cursors::is_normal(text, after.all_selections())
    &&& after.text_version == before.text_version + 1
    &&& history_view(after.selection_history@) == recorded(
        history_view(before.selection_history@),
        before.text_version,
        before.all_selections(),
        after.all_selections(),
    )
    &&& after.occurrence_session is None
    &&& snippet_session::optional_model(after.snippet_session) == session
    &&& after.mode == before.mode
    &&& after.disabled == before.disabled
    &&& after.language_configuration == before.language_configuration
    &&& after.fold_candidates == before.fold_candidates
    &&& after.folded_ranges == before.folded_ranges
}

/// What one transaction does to the text, the selections and their history.
pub open spec fn is_transaction(
    before: InputState,
    after: InputState,
    edits: Seq<(int, int, Seq<u8>)>,
    selections: Seq<EditorSelection>,
) -> bool {
    &&& is_step(
        before,
        after,
        edit::applied(before.bytes(), edits),
        selections,
        followed_session(
            snippet_session::optional_model(before.snippet_session),
            edits,
            edits.len() as int,
        ),
    )
    &&& after.lsp == before.lsp
}

/// What making the edits of cursors does, where they can be made.
pub open spec fn is_made(
    before: InputState,
    after: InputState,
    edits: Seq<(int, int, Seq<u8>)>,
    owners: Seq<Option<usize>>,
    made: bool,
) -> bool {
    let sorted = edit::sorted_edits(edits);
    &&& made == are_applicable(before.bytes(), sorted)
    &&& !made ==> after == before
    &&& made ==> is_transaction(
        before,
        after,
        sorted,
        carets_behind(
            sorted,
            sorted_owners(edits, owners),
            before.all_selections().len() as int,
        ),
    )
}

/// What carrying out a plan does: nothing where there is none or its edits
/// cannot be made.
pub open spec fn planned(
    before: InputState,
    after: InputState,
    plan: Option<(Seq<(int, int, Seq<u8>)>, Seq<EditorSelection>)>,
    changed: bool,
) -> bool {
    match plan {
        None => !changed && after == before,
        Some((edits, selections)) => {
            let sorted = edit::sorted_edits(edits);
            &&& changed == (selections.len() > 0 && are_applicable(before.bytes(), sorted))
            &&& !changed ==> after == before
            &&& changed ==> is_transaction(before, after, sorted, selections)
        },
    }
}

/// What bringing back the selections of an edit does to them: where the edit
/// is not known, only the primary selection stays.
pub open spec fn is_restored(
    before: InputState,
    after: InputState,
    version: usize,
    undo: bool,
) -> bool {
    let history = history_view(before.selection_history@);
    let at = history_index(history, version, 0);
    let known = at < history.len() && history[at].0 == version;
    after.all_selections() == if known {
        cursors::normalized(
            before.bytes(),
            if undo {
                history[at].1
            } else {
                history[at].2
            },
            before.primary(),
        )
    } else {
        seq![before.primary()]
    }
}

/// Edits in their order, the carets behind them, and what the one of the
/// primary selection inserts.
pub struct CursorPlan {
    pub edits: Vec<(Range<usize>, String)>,
    pub carets: Vec<EditorSelection>,
    pub inserted: String,
}

impl InputState {
    /// Makes the edits and then the selections, as one step of the history.
    fn commit(&mut self, edits: &Vec<(Range<usize>, String)>, selections: &Vec<EditorSelection>)
        requires
            selections@.len() > 0,
            old(self).text_version < usize::MAX,
            are_applicable(old(self).bytes(), edit::edits_view(edits@)),
        ensures
            is_transaction(
                *old(self),
                *final(self),
                edit::edits_view(edits@),
                selections@,
            ),
            final(self).wf(),
    {
        let before = self.selections();
        apply_edits(&mut self.text, edits);
        let version: usize = self.text_version;
        self.text_version = version + 1;
        self.occurrence_session = None;
        let session = self.snippet_session.take();
        self.snippet_session = follow_edits(session, edits);
        self.set_editor_selections_internal(selections);
        let after = self.selections();
        let ghost settled = *self;
        record_selections(&mut self.selection_history, version, before, after);
        assert(self.all_selections() =~= settled.all_selections());
    }

    /// Makes the edits and then the selections, as one step of the history.
    /// Returns whether the edits could be made.
    pub fn apply_buffer_edits_with_selections(
        &mut self,
        edits: Vec<(Range<usize>, String)>,
        selections_after: Vec<EditorSelection>,
    ) -> (changed: bool)
        requires
            old(self).wf(),
            old(self).text_version < usize::MAX,
        ensures
            planned(
                *old(self),
                *final(self),
                Some((edit::edits_view(edits@), selections_after@)),
                changed,
            ),
            final(self).wf(),
    {
        let document = self.document();
        let (sorted, _) = edit::sort_edits(&edits);
        if selections_after.len() == 0 || !check_applicable(&document, &sorted) {
            return false;
        }
        self.commit(&sorted, &selections_after);
        true
    }

    /// Makes the edits as one step of the history; the selections stay with
    /// the text around them. Returns whether the edits could be made.
    pub fn apply_buffer_edits(&mut self, edits: Vec<(Range<usize>, String)>) -> (changed: bool)
        requires
            old(self).wf(),
            old(self).text_version < usize::MAX,
        ensures
            ({
                let sorted = edit::sorted_edits(edit::edits_view(edits@));
                let current = old(self).all_selections();
                planned(
                    *old(self),
                    *final(self),
                    Some(
                        (
                            edit::edits_view(edits@),
                            Seq::new(
                                current.len(),
                                |i: int| edit::shifted_selection(sorted, current[i], true),
                            ),
                        ),
                    ),
                    changed,
                )
            }),
            final(self).wf(),
    {
        let document = self.document();
        let (sorted, _) = edit::sort_edits(&edits);
        let ghost sv = edit::edits_view(sorted@);
        if !check_applicable(&document, &sorted) {
            return false;
        }
        let current = self.selections();
        let ghost t = self.bytes();
        let mut after: Vec<EditorSelection> = Vec::new();
        while after.len() < current.len()
            invariant
                *self == *old(self),
                self.wf(),
                t == self.bytes(),
                current@ == self.all_selections(),
                sv == edit::edits_view(sorted@),
                are_applicable(t, sv),
                after@.len() <= current@.len(),
                forall|k: int|
                    0 <= k < after@.len() ==> #[trigger] after@[k] == edit::shifted_selection(
                        sv,
                        current@[k],
                        true,
                    ),
            decreases current.len() - after.len(),
        {
            let i: usize = after.len();
            assert(self.all_selections()[i as int] == current@[i as int]);
            assert(edit::edits_ordered(sv, t.len() as int));
            after.push(edit::shift_selection(&sorted, current[i], true));
        }
        assert(after@ =~= Seq::new(
            current@.len(),
            |i: int| edit::shifted_selection(sv, current@[i], true),
        ));
        self.commit(&sorted, &after);
        true
    }

    /// The edits in their order, a caret behind each that belongs to a
    /// selection, and what the primary selection's edit inserts; nothing where
    /// the edits overlap or cannot be made.
    pub(crate) fn plan_cursor_edits(
        &self,
        edits: Vec<(Range<usize>, String)>,
        owners: Vec<Option<usize>>,
    ) -> (plan: Option<CursorPlan>)
        requires
            self.wf(),
            owners@.len() == edits@.len(),
        ensures
            ({
                let sorted = edit::sorted_edits(edit::edits_view(edits@));
                let placed = sorted_owners(edit::edits_view(edits@), owners@);
                &&& plan is Some == are_applicable(self.bytes(), sorted)
                &&& plan matches Some(plan) ==> {
                    &&& edit::edits_view(plan.edits@) == sorted
                    &&& plan.carets@ == carets_behind(
                        sorted,
                        placed,
                        self.all_selections().len() as int,
                    )
                    &&& encode_utf8(plan.inserted@) == primary_insertion(sorted, placed)
                }
            }),
    {
        let document = self.document();
        let (sorted, order) = edit::sort_edits(&edits);
        let ghost sv = edit::edits_view(sorted@);
        let ghost pv = sorted_owners(edit::edits_view(edits@), owners@);
        if !check_applicable(&document, &sorted) {
            return None;
        }
        let mut placed: Vec<Option<usize>> = Vec::new();
        while placed.len() < order.len()
            invariant
                placed@.len() <= order@.len(),
                order@.len() == edits@.len(),
                owners@.len() == edits@.len(),
                pv == sorted_owners(edit::edits_view(edits@), owners@),
                order::indices_view(order@) == order::sorted_order(
                    edit::edit_keys(edit::edits_view(edits@)),
                    edits@.len() as int,
                ),
                forall|i: int| 0 <= i < order@.len() ==> #[trigger] order@[i] < edits@.len(),
                forall|k: int| 0 <= k < placed@.len() ==> #[trigger] placed@[k] == pv[k],
            decreases order.len() - placed.len(),
        {
            let k: usize = placed.len();
            let at: usize = order[k];
            assert(order::indices_view(order@)[k as int] == at);
            placed.push(owners[at]);
        }
        assert(placed@ =~= pv);
        let carets = carets_of_edits(&sorted, Ghost(self.bytes().len() as int));
        let count: usize = self.selections().len();
        let mut after: Vec<EditorSelection> = Vec::new();
        let mut n: usize = 0;
        assert(after@ =~= carets_behind(sv, pv, 0));
        while n < count
            invariant
                n <= count,
                placed@ == pv,
                carets@.len() == sv.len(),
                pv.len() == sv.len(),
                forall|p: int|
                    0 <= p < carets@.len() ==> #[trigger] carets@[p] == caret_behind(sv, p),
                after@ == carets_behind(sv, pv, n as int),
            decreases count - n,
        {
            match find_owned_edit(&placed, n) {
                Some(p) => {
                    after.push(carets[p]);
                },
                None => {},
            }
            n = n + 1;
        }
        let mut inserted = String::new();
        assert(encode_utf8(Seq::<char>::empty()) =~= Seq::<u8>::empty());
        match find_owned_edit(&placed, 0) {
            Some(p) => {
                inserted = sorted[p].1.clone();
                assert(sv[p as int] == edit::edit_view(sorted@[p as int]));
            },
            None => {},
        }
        Some(CursorPlan { edits: sorted, carets: after, inserted })
    }

    /// Makes one edit for each cursor, each given with the selection it
    /// belongs to, as one step of the history. Each of those selections
    /// becomes a caret behind its edit. Returns whether that was done: not
    /// where the edits overlap or cannot be made.
    pub(crate) fn make_cursor_edits(
        &mut self,
        edits: Vec<(Range<usize>, String)>,
        owners: Vec<Option<usize>>,
    ) -> (made: bool)
        requires
            old(self).wf(),
            old(self).text_version < usize::MAX,
            owners@.len() == edits@.len(),
            edits@.len() > 0 ==> carets_behind(
                edit::sorted_edits(edit::edits_view(edits@)),
                sorted_owners(edit::edits_view(edits@), owners@),
                old(self).all_selections().len() as int,
            ).len() > 0,
        ensures
            ({
                let sorted = edit::sorted_edits(edit::edits_view(edits@));
                let placed = sorted_owners(edit::edits_view(edits@), owners@);
                &&& made == are_applicable(old(self).bytes(), sorted)
                &&& !made ==> *final(self) == *old(self)
                &&& made ==> is_transaction(
                    *old(self),
                    *final(self),
                    sorted,
                    carets_behind(sorted, placed, old(self).all_selections().len() as int),
                )
            }),
            final(self).wf(),
    {
        match self.plan_cursor_edits(edits, owners) {
            Some(plan) => {
                self.commit(&plan.edits, &plan.carets);
                true
            },
            None => false,
        }
    }

    /// Brings back the selections from before or after the edit of `version`;
    /// where none are known, only the primary selection stays.
    pub fn restore_multi_cursor_history(&mut self, version: usize, undo: bool)
        requires
            old(self).wf(),
        ensures
            is_restored(*old(self), *final(self), version, undo),
            final(self).wf(),
            final(self).occurrence_session == old(self).occurrence_session,
            final(self).snippet_session == old(self).snippet_session,
            state::same_document(*old(self), *final(self)),
    {
        let ghost hv = history_view(self.selection_history@);
        let mut at: usize = 0;
        while at < self.selection_history.len() && self.selection_history[at].version < version
            invariant
                *self == *old(self),
                at <= self.selection_history@.len(),
                hv == history_view(self.selection_history@),
                history_index(hv, version, 0) == history_index(hv, version, at as int),
            decreases self.selection_history.len() - at,
        {
            assert(hv[at as int].0 == self.selection_history@[at as int].version);
            at = at + 1;
        }
        proof {
            if at < self.selection_history@.len() {
                assert(hv[at as int].0 == self.selection_history@[at as int].version);
            }
        }
        if at < self.selection_history.len() && self.selection_history[at].version == version {
            let selections = if undo {
                copy_selections(&self.selection_history[at].before)
            } else {
                copy_selections(&self.selection_history[at].after)
            };
            self.set_editor_selections_internal(&selections);
        } else {
            self.secondary_selections = Vec::new();
            assert(self.all_selections() =~= seq![old(self).primary()]);
            assert(old(self).all_selections()[0] == old(self).primary());
        }
    }
}

/// Every edit of the history was made before the text had its version.
pub open spec fn is_past(state: InputState) -> bool {
    forall|i: int|
        #![trigger state.selection_history@[i]]
        0 <= i < state.selection_history@.len() ==> state.selection_history@[i].version
            < state.text_version
}

/// No entry is of a version as late as this.
proof fn lemma_history_before(
    history: Seq<(usize, Seq<EditorSelection>, Seq<EditorSelection>)>,
    version: usize,
    from: int,
)
    requires
        0 <= from <= history.len(),
        forall|i: int| #![trigger history[i]] from <= i < history.len() ==> history[i].0 < version,
    ensures
        history_index(history, version, from) == history.len(),
    decreases history.len() - from,
{
    if from < history.len() {
        lemma_history_before(history, version, from + 1);
    }
}

/// The only entry of a version is found where it stands at the end.
proof fn lemma_history_last(
    history: Seq<(usize, Seq<EditorSelection>, Seq<EditorSelection>)>,
    version: usize,
    from: int,
)
    requires
        0 <= from < history.len(),
        forall|i: int|
            #![trigger history[i]]
            from <= i < history.len() - 1 ==> history[i].0 < version,
        history.last().0 == version,
    ensures
        history_index(history, version, from) == history.len() - 1,
    decreases history.len() - from,
{
    if from < history.len() - 1 {
        lemma_history_last(history, version, from + 1);
    }
}

/// An edit that is made is recorded last in a history that holds only earlier
/// ones.
proof fn lemma_recorded_last(
    history: Seq<(usize, Seq<EditorSelection>, Seq<EditorSelection>)>,
    version: usize,
    before: Seq<EditorSelection>,
    after: Seq<EditorSelection>,
)
    requires
        before != after,
        forall|i: int| #![trigger history[i]] 0 <= i < history.len() ==> history[i].0 < version,
    ensures
        ({
            let all = recorded(history, version, before, after);
            &&& all.len() > 0
            &&& all.last() == (version, before, after)
            &&& forall|i: int| #![trigger all[i]] 0 <= i < all.len() - 1 ==> all[i].0 < version
            &&& history_index(all, version, 0) == all.len() - 1
        }),
{
    lemma_history_before(history, version, 0);
    let n = history.len() as int;
    let whole = history.insert(n, (version, before, after));
    assert(with_entry(history, version, before, after) == whole);
    let all = recorded(history, version, before, after);
    let cut = whole.len() - all.len();
    assert forall|i: int| #![trigger all[i]] 0 <= i < all.len() - 1 implies all[i].0 < version by {
        assert(all[i] == history[i + cut]);
    }
    lemma_history_last(all, version, 0);
}

/// A step leaves a history of edits that were made before.
pub proof fn law_history_stays_past(
    before: InputState,
    after: InputState,
    text: Seq<u8>,
    selections: Seq<EditorSelection>,
    session: Option<SnippetModel>,
)
    requires
        is_step(before, after, text, selections, session),
        is_past(before),
    ensures
        is_past(after),
{
    let history = history_view(before.selection_history@);
    let all = history_view(after.selection_history@);
    assert forall|i: int| #![trigger history[i]] 0 <= i < history.len() implies history[i].0
        < before.text_version by {
        assert(history[i].0 == before.selection_history@[i].version);
    }
    if before.all_selections() != after.all_selections() {
        lemma_recorded_last(
            history,
            before.text_version,
            before.all_selections(),
            after.all_selections(),
        );
    }
    assert forall|i: int|
        #![trigger after.selection_history@[i]]
        0 <= i < after.selection_history@.len() implies after.selection_history@[i].version
        < after.text_version by {
        assert(all[i].0 == after.selection_history@[i].version);
    }
}

/// Undoing a step that moved the selections brings back those from before it,
/// all of them; doing it again brings back those from after it.
pub proof fn law_undo_brings_selections_back(
    before: InputState,
    after: InputState,
    text: Seq<u8>,
    selections: Seq<EditorSelection>,
    session: Option<SnippetModel>,
    stepped: InputState,
    restored: InputState,
    undo: bool,
)
    requires
        is_step(before, after, text, selections, session),
        is_past(before),
        before.all_selections() != after.all_selections(),
        cursors::is_normal(before.bytes(), before.all_selections()),
        cursors::are_directed(before.all_selections()),
        selections.len() > 0,
        after.bytes().len() <= usize::MAX,
        stepped.bytes() == if undo {
            before.bytes()
        } else {
            after.bytes()
        },
        stepped.selection_history == after.selection_history,
        is_restored(stepped, restored, before.text_version, undo),
    ensures
        restored.all_selections() == if undo {
            before.all_selections()
        } else {
            after.all_selections()
        },
{
    let history = history_view(before.selection_history@);
    assert forall|i: int| #![trigger history[i]] 0 <= i < history.len() implies history[i].0
        < before.text_version by {
        assert(history[i].0 == before.selection_history@[i].version);
    }
    lemma_recorded_last(
        history,
        before.text_version,
        before.all_selections(),
        after.all_selections(),
    );
    if undo {
        cursors::law_normal_selections_stay(
            before.bytes(),
            before.all_selections(),
            stepped.primary(),
        );
    } else {
        cursors::law_normalized_carets_have_no_direction(
            after.bytes(),
            selections,
            before.primary(),
        );
        cursors::law_normal_selections_stay(
            after.bytes(),
            after.all_selections(),
            stepped.primary(),
        );
    }
}

} // verus!
