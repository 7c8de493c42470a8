//! Selecting further occurrences of what is selected.

use crate::chars;
use crate::cursor;
use crate::cursor::{EditorSelection, Selection};
use crate::matching;
use crate::multi_cursor as cursors;
use crate::rope;
use crate::state;
use crate::state::{InputState, OccurrenceSession};
use crate::text;
use crate::text::Document;
use vstd::prelude::*;
use vstd::string::*;
use vstd::utf8::*;

verus! {

pub const MAX_OCCURRENCE_QUERY_BYTES: usize = 16_384;

/// Limit on the size of a compiled pattern.
pub const OCCURRENCE_SIZE_LIMIT: usize = 10_485_760;

/// Limit on the cache of a pattern's automaton.
pub const OCCURRENCE_CACHE_LIMIT: usize = 2_097_152;

/// An occurrence session as plain values.
pub struct SessionModel {
    pub query: Seq<char>,
    pub match_case: bool,
    pub whole_word: bool,
    pub text_version: usize,
    pub last_match: Option<Selection>,
}

impl OccurrenceSession {
    pub open spec fn model(&self) -> SessionModel {
        SessionModel {
            query: self.query@,
            match_case: self.match_case,
            whole_word: self.whole_word,
            text_version: self.text_version,
            last_match: self.last_match,
        }
    }
}

pub open spec fn session_model(session: Option<OccurrenceSession>) -> Option<SessionModel> {
    match session {
        Some(session) => Some(session.model()),
        None => None,
    }
}

/// The text of a selection that is not a caret.
pub open spec fn selected(t: Seq<u8>, selection: EditorSelection) -> Seq<char> {
    decode_utf8(t.subrange(selection.range.start as int, selection.range.end as int))
}

pub open spec fn is_caret(selection: EditorSelection) -> bool {
    selection.range.start == selection.range.end
}

/// Whether two texts count as the same.
pub open spec fn same_occurrence(a: Seq<char>, b: Seq<char>, match_case: bool) -> bool {
    a == b || (!match_case && (chars::eq_ignore_ascii_case(a, b) || chars::lowercase(a)
        == chars::lowercase(b)))
}

fn occurrence_text_eq(left: &str, right: &str, match_case: bool) -> (same: bool)
    ensures
        same == same_occurrence(left@, right@, match_case),
{
    if match_case || chars::same_text(left, right) {
        chars::same_text(left, right)
    } else if chars::check_eq_ignore_ascii_case(left, right) {
        true
    } else {
        chars::same_text(
            chars::to_lowercase(left).as_str(),
            chars::to_lowercase(right).as_str(),
        )
    }
}

/// Whether the selection holds an occurrence that the session looks for.
pub open spec fn is_session_match(
    t: Seq<u8>,
    selection: EditorSelection,
    session: SessionModel,
) -> bool {
    &&& !is_caret(selection)
    &&& same_occurrence(selected(t, selection), session.query, session.match_case)
    &&& !session.whole_word || chars::word_range(t, selection.range.start as int) == Some(
        (selection.range.start as int, selection.range.end as int),
    )
}

/// Whether a query is one to look for.
pub open spec fn is_query(query: Seq<char>) -> bool {
    0 < encode_utf8(query).len() <= MAX_OCCURRENCE_QUERY_BYTES
}

/// Whether the session still describes the text and the selections.
pub open spec fn is_current(
    t: Seq<u8>,
    selections: Seq<EditorSelection>,
    version: usize,
    session: SessionModel,
) -> bool {
    &&& session.text_version == version
    &&& is_query(session.query)
    &&& forall|i: int|
        #![trigger selections[i]]
        0 <= i < selections.len() ==> is_session_match(t, selections[i], session)
}

/// The session that the selections themselves start, where all of them hold
/// the same text.
pub open spec fn started_session(
    t: Seq<u8>,
    selections: Seq<EditorSelection>,
    version: usize,
) -> Option<SessionModel> {
    let query = selected(t, selections[0]);
    if is_caret(selections[0]) || !is_query(query) || exists|i: int|
        #![trigger selections[i]]
        0 <= i < selections.len() && !(!is_caret(selections[i]) && same_occurrence(
            selected(t, selections[i]),
            query,
            false,
        )) {
        None
    } else {
        Some(
            SessionModel {
                query,
                match_case: false,
                whole_word: false,
                text_version: version,
                last_match: Some(selections.last().range),
            },
        )
    }
}

/// The session that adding an occurrence continues or starts.
pub open spec fn session_for_add(
    t: Seq<u8>,
    selections: Seq<EditorSelection>,
    version: usize,
    session: Option<SessionModel>,
) -> Option<SessionModel> {
    if session is Some && is_current(t, selections, version, session->Some_0) {
        session
    } else {
        started_session(t, selections, version)
    }
}

/// The session that selecting all occurrences continues or starts: a caret
/// stands for the word around it.
pub open spec fn session_for_select_all(
    t: Seq<u8>,
    selections: Seq<EditorSelection>,
    version: usize,
    session: Option<SessionModel>,
) -> Option<SessionModel> {
    let primary = selections[0];
    if session is Some && is_current(t, selections, version, session->Some_0) {
        session
    } else if is_caret(primary) {
        match chars::word_range(t, primary.spec_head() as int) {
            Some((start, end)) => {
                let query = decode_utf8(t.subrange(start, end));
                if is_query(query) {
                    Some(
                        SessionModel {
                            query,
                            match_case: true,
                            whole_word: true,
                            text_version: version,
                            last_match: Some(
                                Selection { start: start as usize, end: end as usize },
                            ),
                        },
                    )
                } else {
                    None
                }
            },
            None => None,
        }
    } else if is_query(selected(t, primary)) {
        Some(
            SessionModel {
                query: selected(t, primary),
                match_case: false,
                whole_word: false,
                text_version: version,
                last_match: Some(primary.range),
            },
        )
    } else {
        None
    }
}

/// Of the first `n` matches, those that are whole words where that is asked.
pub open spec fn admitted_matches(
    t: Seq<u8>,
    matches: Seq<(int, int)>,
    whole_word: bool,
    n: int,
) -> Seq<(int, int)>
    decreases n,
{
    if n <= 0 {
        Seq::empty()
    } else {
        let before = admitted_matches(t, matches, whole_word, n - 1);
        if whole_word && chars::word_range(t, matches[n - 1].0) != Some(matches[n - 1]) {
            before
        } else {
            before.push(matches[n - 1])
        }
    }
}

/// What `regex` finds of the session's query.
pub open spec fn found_matches(text: Seq<char>, session: SessionModel) -> Seq<(int, int)> {
    match matching::regex_matches(
        matching::escaped_pattern(session.query),
        !session.match_case,
        false,
        OCCURRENCE_SIZE_LIMIT,
        OCCURRENCE_CACHE_LIMIT,
        text,
    ) {
        Some(matches) => matches,
        None => Seq::empty(),
    }
}

/// The occurrences that the session looks for.
pub open spec fn occurrences_of(text: Seq<char>, session: SessionModel) -> Seq<(int, int)> {
    let matches = found_matches(text, session);
    if is_query(session.query) {
        admitted_matches(encode_utf8(text), matches, session.whole_word, matches.len() as int)
    } else {
        Seq::empty()
    }
}

/// Whether a selection has just the range.
pub open spec fn is_selected(selections: Seq<EditorSelection>, span: (int, int)) -> bool {
    exists|i: int|
        #![trigger selections[i]]
        0 <= i < selections.len() && selections[i].range.start == span.0 && selections[i].range.end
            == span.1
}

/// The first of the spans from `from` on that is not selected and starts at or
/// after `boundary`.
pub open spec fn first_unselected(
    spans: Seq<(int, int)>,
    selections: Seq<EditorSelection>,
    boundary: int,
    from: int,
) -> Option<(int, int)>
    decreases spans.len() - from,
{
    if from < 0 || from >= spans.len() {
        None
    } else if !is_selected(selections, spans[from]) && spans[from].0 >= boundary {
        Some(spans[from])
    } else {
        first_unselected(spans, selections, boundary, from + 1)
    }
}

/// The last of the first `n` spans that is not selected and ends at or before
/// `boundary`.
pub open spec fn last_unselected(
    spans: Seq<(int, int)>,
    selections: Seq<EditorSelection>,
    boundary: int,
    n: int,
) -> Option<(int, int)>
    decreases n,
{
    if n <= 0 {
        None
    } else if !is_selected(selections, spans[n - 1]) && spans[n - 1].1 <= boundary {
        Some(spans[n - 1])
    } else {
        last_unselected(spans, selections, boundary, n - 1)
    }
}

/// The occurrence to select next: the nearest one on the side of the last
/// match that is asked for, else the first one from the other end of the text.
pub open spec fn next_occurrence(
    spans: Seq<(int, int)>,
    selections: Seq<EditorSelection>,
    last_match: Option<Selection>,
    len: int,
    forward: bool,
) -> Option<(int, int)> {
    if forward {
        let boundary = match last_match {
            Some(range) => range.end as int,
            None => 0,
        };
        match first_unselected(spans, selections, boundary, 0) {
            Some(span) => Some(span),
            None => first_unselected(spans, selections, 0, 0),
        }
    } else {
        let boundary = match last_match {
            Some(range) => range.start as int,
            None => len,
        };
        match last_unselected(spans, selections, boundary, spans.len() as int) {
            Some(span) => Some(span),
            None => last_unselected(spans, selections, len, spans.len() as int),
        }
    }
}

fn check_selected(selections: &Vec<EditorSelection>, span: (usize, usize)) -> (found: bool)
    ensures
        found == is_selected(selections@, (span.0 as int, span.1 as int)),
{
    let mut i: usize = 0;
    while i < selections.len()
        invariant
            i <= selections@.len(),
            forall|k: int|
                0 <= k < i ==> !((#[trigger] selections@[k]).range.start == span.0
                    && selections@[k].range.end == span.1),
        decreases selections.len() - i,
    {
        if selections[i].range.start == span.0 && selections[i].range.end == span.1 {
            return true;
        }
        i = i + 1;
    }
    false
}

fn find_first_unselected(
    spans: &Vec<(usize, usize)>,
    selections: &Vec<EditorSelection>,
    boundary: usize,
) -> (found: Option<(usize, usize)>)
    ensures
        match found {
            Some(span) => first_unselected(
                matching::spans_view(spans@),
                selections@,
                boundary as int,
                0,
            ) == Some((span.0 as int, span.1 as int)) && spans@.contains(span),
            None => first_unselected(
                matching::spans_view(spans@),
                selections@,
                boundary as int,
                0,
            ) is None,
        },
{
    let ghost sv = matching::spans_view(spans@);
    let mut i: usize = 0;
    while i < spans.len()
        invariant
            i <= spans@.len(),
            sv == matching::spans_view(spans@),
            first_unselected(sv, selections@, boundary as int, 0) == first_unselected(
                sv,
                selections@,
                boundary as int,
                i as int,
            ),
        decreases spans.len() - i,
    {
        let span = spans[i];
        assert(sv[i as int] == (span.0 as int, span.1 as int));
        if !check_selected(selections, span) && span.0 >= boundary {
            assert(spans@[i as int] == span);
            return Some(span);
        }
        i = i + 1;
    }
    None
}

fn find_last_unselected(
    spans: &Vec<(usize, usize)>,
    selections: &Vec<EditorSelection>,
    boundary: usize,
) -> (found: Option<(usize, usize)>)
    ensures
        match found {
            Some(span) => last_unselected(
                matching::spans_view(spans@),
                selections@,
                boundary as int,
                spans@.len() as int,
            ) == Some((span.0 as int, span.1 as int)) && spans@.contains(span),
            None => last_unselected(
                matching::spans_view(spans@),
                selections@,
                boundary as int,
                spans@.len() as int,
            ) is None,
        },
{
    let ghost sv = matching::spans_view(spans@);
    let mut n: usize = spans.len();
    while n > 0
        invariant
            n <= spans@.len(),
            sv == matching::spans_view(spans@),
            last_unselected(sv, selections@, boundary as int, spans@.len() as int)
                == last_unselected(sv, selections@, boundary as int, n as int),
        decreases n,
    {
        let span = spans[n - 1];
        assert(sv[n - 1] == (span.0 as int, span.1 as int));
        if !check_selected(selections, span) && span.1 <= boundary {
            assert(spans@[n - 1] == span);
            return Some(span);
        }
        n = n - 1;
    }
    None
}

/// The occurrence to select next, given all of them.
pub fn pick_occurrence(
    spans: &Vec<(usize, usize)>,
    selections: &Vec<EditorSelection>,
    last_match: Option<Selection>,
    len: usize,
    forward: bool,
) -> (found: Option<(usize, usize)>)
    ensures
        match found {
            Some(span) => next_occurrence(
                matching::spans_view(spans@),
                selections@,
                last_match,
                len as int,
                forward,
            ) == Some((span.0 as int, span.1 as int)) && spans@.contains(span),
            None => next_occurrence(
                matching::spans_view(spans@),
                selections@,
                last_match,
                len as int,
                forward,
            ) is None,
        },
{
    if forward {
        let boundary: usize = match last_match {
            Some(range) => range.end,
            None => 0,
        };
        match find_first_unselected(spans, selections, boundary) {
            Some(span) => Some(span),
            None => find_first_unselected(spans, selections, 0),
        }
    } else {
        let boundary: usize = match last_match {
            Some(range) => range.start,
            None => len,
        };
        match find_last_unselected(spans, selections, boundary) {
            Some(span) => Some(span),
            None => find_last_unselected(spans, selections, len),
        }
    }
}

/// Each caret with a word around it as the selection of that word.
pub open spec fn expanded_selection(t: Seq<u8>, selection: EditorSelection) -> EditorSelection {
    if is_caret(selection) {
        match chars::word_range(t, selection.spec_head() as int) {
            Some((start, end)) => cursor::spec_from_anchor_and_head(start as usize, end as usize),
            None => selection,
        }
    } else {
        selection
    }
}

pub open spec fn expanded(t: Seq<u8>, selections: Seq<EditorSelection>) -> Seq<EditorSelection> {
    Seq::new(selections.len(), |i: int| expanded_selection(t, selections[i]))
}

pub open spec fn has_caret(selections: Seq<EditorSelection>) -> bool {
    exists|i: int| #![trigger selections[i]] 0 <= i < selections.len() && is_caret(selections[i])
}

/// The session that a single caret starts once it has grown to its word.
pub open spec fn word_session(
    t: Seq<u8>,
    selection: EditorSelection,
    version: usize,
) -> Option<SessionModel> {
    if is_query(selected(t, selection)) {
        Some(
            SessionModel {
                query: selected(t, selection),
                match_case: true,
                whole_word: true,
                text_version: version,
                last_match: Some(selection.range),
            },
        )
    } else {
        None
    }
}

fn slice_selected(document: &Document, selection: EditorSelection) -> (part: String)
    requires
        document.wf(),
        cursors::is_on_boundaries(document.bytes(), selection),
    ensures
        part@ == selected(document.bytes(), selection),
{
    let part = document.slice(selection.range.start, selection.range.end);
    proof {
        encode_utf8_decode_utf8(part@);
    }
    part
}

/// The selection between the two ends of a span.
fn select_span(span: (usize, usize)) -> (selection: EditorSelection)
    ensures
        selection == cursor::spec_from_anchor_and_head(span.0, span.1),
{
    EditorSelection::from_anchor_and_head(span.0, span.1)
}

fn copy_session(session: &OccurrenceSession) -> (copy: OccurrenceSession)
    ensures
        copy.model() == session.model(),
{
    OccurrenceSession {
        query: session.query.clone(),
        match_case: session.match_case,
        whole_word: session.whole_word,
        text_version: session.text_version,
        last_match: session.last_match,
    }
}

impl InputState {
    fn check_session_match(
        &self,
        document: &Document,
        text: &str,
        selection: EditorSelection,
        session: &OccurrenceSession,
    ) -> (matching: bool)
        requires
            document.wf(),
            document.bytes() == encode_utf8(text@),
            cursors::is_on_boundaries(document.bytes(), selection),
        ensures
            matching == is_session_match(document.bytes(), selection, session.model()),
    {
        if selection.is_empty() {
            return false;
        }
        let value = slice_selected(document, selection);
        if !occurrence_text_eq(value.as_str(), session.query.as_str(), session.match_case) {
            return false;
        }
        if !session.whole_word {
            return true;
        }
        match chars::find_word(text, selection.range.start) {
            Some((start, end)) => start == selection.range.start && end == selection.range.end,
            None => false,
        }
    }

    fn check_session_current(&self, document: &Document, text: &str, session: &OccurrenceSession)
     -> (current: bool)
        requires
            self.wf(),
            document.wf(),
            document.bytes() == self.bytes(),
            self.bytes() == encode_utf8(text@),
        ensures
            current == is_current(
                self.bytes(),
                self.all_selections(),
                self.text_version,
                session.model(),
            ),
    {
        let size: usize = session.query.as_str().as_bytes().len();
        if session.text_version != self.text_version || size == 0 || size
            > MAX_OCCURRENCE_QUERY_BYTES {
            return false;
        }
        let selections = self.selections();
        let mut i: usize = 0;
        while i < selections.len()
            invariant
                i <= selections@.len(),
                self.wf(),
                document.wf(),
                document.bytes() == self.bytes(),
                self.bytes() == encode_utf8(text@),
                selections@ == self.all_selections(),
                forall|k: int|
                    #![trigger selections@[k]]
                    0 <= k < i ==> is_session_match(
                        self.bytes(),
                        selections@[k],
                        session.model(),
                    ),
            decreases selections.len() - i,
        {
            assert(self.all_selections()[i as int] == selections@[i as int]);
            if !self.check_session_match(document, text, selections[i], session) {
                return false;
            }
            i = i + 1;
        }
        true
    }

    fn start_session(&self, document: &Document) -> (session: Option<OccurrenceSession>)
        requires
            self.wf(),
            document.wf(),
            document.bytes() == self.bytes(),
        ensures
            session_model(session) == started_session(
                self.bytes(),
                self.all_selections(),
                self.text_version,
            ),
    {
        let selections = self.selections();
        let ghost t = self.bytes();
        let first = selections[0];
        assert(self.all_selections()[0] == first);
        if first.is_empty() {
            return None;
        }
        let query = slice_selected(document, first);
        let size: usize = query.as_str().as_bytes().len();
        if size == 0 || size > MAX_OCCURRENCE_QUERY_BYTES {
            return None;
        }
        let mut i: usize = 0;
        while i < selections.len()
            invariant
                i <= selections@.len(),
                self.wf(),
                document.wf(),
                document.bytes() == self.bytes(),
                t == self.bytes(),
                selections@ == self.all_selections(),
                query@ == selected(t, selections@[0]),
                forall|k: int|
                    #![trigger selections@[k]]
                    0 <= k < i ==> !is_caret(selections@[k]) && same_occurrence(
                        selected(t, selections@[k]),
                        query@,
                        false,
                    ),
            decreases selections.len() - i,
        {
            assert(self.all_selections()[i as int] == selections@[i as int]);
            if selections[i].is_empty() {
                assert(is_caret(selections@[i as int]));
                return None;
            }
            let value = slice_selected(document, selections[i]);
            if !occurrence_text_eq(value.as_str(), query.as_str(), false) {
                assert(!same_occurrence(selected(t, selections@[i as int]), query@, false));
                return None;
            }
            i = i + 1;
        }
        let last_match = Some(selections[selections.len() - 1].range);
        Some(
            OccurrenceSession {
                query,
                match_case: false,
                whole_word: false,
                text_version: self.text_version,
                last_match,
            },
        )
    }

    /// Every occurrence that the session looks for.
    fn find_occurrences(&self, text: &str, session: &OccurrenceSession) -> (spans: Vec<
        (usize, usize),
    >)
        requires
            text@ == rope::rope_chars(self.text),
        ensures
            matching::spans_view(spans@) == occurrences_of(
                rope::rope_chars(self.text),
                session.model(),
            ),
            matching::spans_wf(self.bytes(), matching::spans_view(spans@)),
    {
        let size: usize = session.query.as_str().as_bytes().len();
        let ghost model = session.model();
        let ghost t = self.bytes();
        let mut spans: Vec<(usize, usize)> = Vec::new();
        assert(matching::spans_view(spans@) =~= Seq::<(int, int)>::empty());
        if size == 0 || size > MAX_OCCURRENCE_QUERY_BYTES {
            return spans;
        }
        let pattern = matching::escape_pattern(session.query.as_str());
        let found = match matching::find_regex(
            pattern.as_str(),
            !session.match_case,
            false,
            OCCURRENCE_SIZE_LIMIT,
            OCCURRENCE_CACHE_LIMIT,
            text,
        ) {
            Some(found) => found,
            None => {
                return spans;
            },
        };
        admit_matches(text, &found, session.whole_word)
    }
}

/// The matches that are whole words where that is asked.
pub fn admit_matches(text: &str, found: &Vec<(usize, usize)>, whole_word: bool) -> (spans: Vec<
    (usize, usize),
>)
    requires
        matching::spans_wf(encode_utf8(text@), matching::spans_view(found@)),
    ensures
        matching::spans_view(spans@) == admitted_matches(
            encode_utf8(text@),
            matching::spans_view(found@),
            whole_word,
            found@.len() as int,
        ),
        matching::spans_wf(encode_utf8(text@), matching::spans_view(spans@)),
{
    let ghost t = encode_utf8(text@);
    let ghost fv = matching::spans_view(found@);
    let mut spans: Vec<(usize, usize)> = Vec::new();
    assert(matching::spans_view(spans@) =~= Seq::<(int, int)>::empty());
    let mut n: usize = 0;
    while n < found.len()
        invariant
            n <= found@.len(),
            t == encode_utf8(text@),
            fv == matching::spans_view(found@),
            matching::spans_wf(t, fv),
            matching::spans_view(spans@) == admitted_matches(t, fv, whole_word, n as int),
            matching::spans_wf(t, matching::spans_view(spans@)),
            forall|i: int|
                #![trigger spans@[i]]
                0 <= i < spans@.len() ==> n > 0 && spans@[i].1 <= fv[n - 1].1,
        decreases found.len() - n,
    {
        let span = found[n];
        assert(fv[n as int] == (span.0 as int, span.1 as int));
        let keep = if whole_word {
            match chars::find_word(text, span.0) {
                Some((start, end)) => start == span.0 && end == span.1,
                None => false,
            }
        } else {
            true
        };
        let ghost before = spans@;
        let ghost bv = matching::spans_view(before);
        proof {
            if n > 0 {
                assert(fv[n - 1].1 <= fv[n as int].0);
            }
        }
        if keep {
            spans.push(span);
            proof {
                let sv = matching::spans_view(spans@);
                assert(sv =~= bv.push(fv[n as int]));
                assert forall|i: int, j: int|
                    #![trigger sv[i], sv[j]]
                    0 <= i < j < sv.len() implies sv[i].1 <= sv[j].0 by {
                    assert(sv[i] == bv[i]);
                    assert(spans@[i] == before[i]);
                    if j < bv.len() {
                        assert(sv[j] == bv[j]);
                    }
                }
            }
        }
        n = n + 1;
    }
    spans
}

/// Whether a span and a selection share something; a caret may stand at an
/// end of the span.
pub open spec fn intersects(span: (int, int), selection: EditorSelection) -> bool {
    if is_caret(selection) {
        span.0 <= selection.spec_head() <= span.1
    } else {
        span.0 < selection.range.end && selection.range.start < span.1
    }
}

fn check_intersects(span: (usize, usize), selection: EditorSelection) -> (shared: bool)
    ensures
        shared == intersects((span.0 as int, span.1 as int), selection),
{
    if selection.is_empty() {
        span.0 <= selection.head() && selection.head() <= span.1
    } else {
        span.0 < selection.range.end && selection.range.start < span.1
    }
}

/// The last of the first `n` spans that the selection intersects.
pub open spec fn last_intersecting(
    spans: Seq<(int, int)>,
    selection: EditorSelection,
    n: int,
) -> Option<(int, int)>
    decreases n,
{
    if n <= 0 {
        None
    } else if intersects(spans[n - 1], selection) {
        Some(spans[n - 1])
    } else {
        last_intersecting(spans, selection, n - 1)
    }
}

/// The occurrence that stays primary.
pub open spec fn preferred_span(
    spans: Seq<(int, int)>,
    primary: EditorSelection,
) -> Option<(int, int)> {
    match last_intersecting(spans, primary, spans.len() as int) {
        Some(span) => Some(span),
        None => if spans.len() > 0 {
            Some(spans[0])
        } else {
            None
        },
    }
}

/// As many of the first spans as there can be selections, `preferred` among them.
pub open spec fn bounded_spans(spans: Seq<(int, int)>, preferred: (int, int)) -> Seq<(int, int)> {
    let base = if spans.len() <= cursors::MAX_EDITOR_SELECTIONS {
        spans
    } else {
        spans.take(cursors::MAX_EDITOR_SELECTIONS as int)
    };
    if base.contains(preferred) {
        base
    } else if base.len() == cursors::MAX_EDITOR_SELECTIONS {
        base.drop_last().push(preferred)
    } else {
        base.push(preferred)
    }
}

/// Index of the first span from `from` on that is `wanted`, else the length.
pub open spec fn span_index(spans: Seq<(int, int)>, wanted: (int, int), from: int) -> int
    decreases spans.len() - from,
{
    if from < 0 || from >= spans.len() || spans[from] == wanted {
        from
    } else {
        span_index(spans, wanted, from + 1)
    }
}

/// The spans to select, `preferred` in front in exchange with the first.
pub open spec fn chosen_spans(spans: Seq<(int, int)>, preferred: (int, int)) -> Seq<(int, int)> {
    let bounded = bounded_spans(spans, preferred);
    let at = span_index(bounded, preferred, 0);
    bounded.update(at, bounded[0]).update(0, preferred)
}

pub open spec fn spans_selected(spans: Seq<(int, int)>) -> Seq<EditorSelection> {
    Seq::new(
        spans.len(),
        |i: int| cursor::spec_from_anchor_and_head(spans[i].0 as usize, spans[i].1 as usize),
    )
}

/// The occurrences to select, given all of them: the one that stays primary,
/// and the selections.
pub fn choose_occurrences(spans: &Vec<(usize, usize)>, primary: EditorSelection) -> (chosen: Option<
    (Selection, Vec<EditorSelection>),
>)
    ensures
        ({
            let sv = matching::spans_view(spans@);
            match chosen {
                Some((preferred, selections)) => preferred_span(sv, primary) == Some(
                    (preferred.start as int, preferred.end as int),
                ) && selections@ == spans_selected(
                    chosen_spans(sv, (preferred.start as int, preferred.end as int)),
                ),
                None => preferred_span(sv, primary) is None,
            }
        }),
{
    let ghost sv = matching::spans_view(spans@);
    if spans.len() == 0 {
        return None;
    }
    let mut n: usize = spans.len();
    while n > 0 && !check_intersects(spans[n - 1], primary)
        invariant
            n <= spans@.len(),
            sv == matching::spans_view(spans@),
            last_intersecting(sv, primary, spans@.len() as int) == last_intersecting(
                sv,
                primary,
                n as int,
            ),
        decreases n,
    {
        assert(sv[n - 1] == (spans@[n - 1].0 as int, spans@[n - 1].1 as int));
        n = n - 1;
    }
    let preferred: (usize, usize) = if n > 0 {
        spans[n - 1]
    } else {
        spans[0]
    };
    let ghost pv = (preferred.0 as int, preferred.1 as int);
    proof {
        if n > 0 {
            assert(sv[n - 1] == pv);
        } else {
            assert(sv[0] == pv);
        }
    }
    let mut base: Vec<(usize, usize)> = Vec::new();
    let mut seen = false;
    while base.len() < spans.len() && base.len() < cursors::MAX_EDITOR_SELECTIONS
        invariant
            base@.len() <= spans@.len(),
            base@.len() <= cursors::MAX_EDITOR_SELECTIONS,
            base@ == spans@.take(base@.len() as int),
            seen == base@.contains(preferred),
        decreases spans.len() - base.len(),
    {
        let ghost before = base@;
        let span = spans[base.len()];
        if span.0 == preferred.0 && span.1 == preferred.1 {
            seen = true;
        }
        base.push(span);
        proof {
            assert(base@ =~= spans@.take(before.len() as int + 1));
            assert(base@[before.len() as int] == span);
            if before.contains(preferred) {
                let k = choose|k: int| 0 <= k < before.len() && before[k] == preferred;
                assert(base@[k] == preferred);
            }
            if base@.contains(preferred) {
                let k = choose|k: int| 0 <= k < base@.len() && base@[k] == preferred;
                if k < before.len() {
                    assert(before[k] == preferred);
                }
            }
        }
    }
    let ghost first = matching::spans_view(base@);
    proof {
        let expected = if sv.len() <= cursors::MAX_EDITOR_SELECTIONS {
            sv
        } else {
            sv.take(cursors::MAX_EDITOR_SELECTIONS as int)
        };
        assert(first =~= expected);
        if first.contains(pv) {
            let k = choose|k: int| 0 <= k < first.len() && first[k] == pv;
            assert(base@[k] == preferred);
        }
        if base@.contains(preferred) {
            let k = choose|k: int| 0 <= k < base@.len() && base@[k] == preferred;
            assert(first[k] == pv);
        }
    }
    if !seen {
        if base.len() == cursors::MAX_EDITOR_SELECTIONS {
            base.pop();
        }
        base.push(preferred);
    }
    let ghost bv = matching::spans_view(base@);
    assert(bv =~= bounded_spans(sv, pv));
    let mut at: usize = 0;
    proof {
        assert(exists|k: int| 0 <= k < bv.len() && #[trigger] bv[k] == pv) by {
            if seen {
                let k = choose|k: int| 0 <= k < first.len() && first[k] == pv;
                assert(bv[k] == pv);
            } else {
                assert(bv[bv.len() - 1] == pv);
            }
        }
    }
    while !(base[at].0 == preferred.0 && base[at].1 == preferred.1)
        invariant
            at < base@.len(),
            bv == matching::spans_view(base@),
            pv == (preferred.0 as int, preferred.1 as int),
            span_index(bv, pv, 0) == span_index(bv, pv, at as int),
            exists|k: int| at <= k < bv.len() && #[trigger] bv[k] == pv,
        decreases base.len() - at,
    {
        assert(bv[at as int] != pv);
        at = at + 1;
    }
    assert(bv[at as int] == pv);
    let ghost cv = chosen_spans(sv, pv);
    let mut selections: Vec<EditorSelection> = Vec::new();
    while selections.len() < base.len()
        invariant
            at < base@.len(),
            bv == matching::spans_view(base@),
            bv == bounded_spans(sv, pv),
            cv == bv.update(at as int, bv[0]).update(0, pv),
            pv == (preferred.0 as int, preferred.1 as int),
            bv[at as int] == pv,
            selections@.len() <= base@.len(),
            forall|k: int|
                0 <= k < selections@.len() ==> #[trigger] selections@[k] == spans_selected(cv)[k],
        decreases base.len() - selections.len(),
    {
        let i: usize = selections.len();
        let span = if i == 0 {
            preferred
        } else if i == at {
            base[0]
        } else {
            base[i]
        };
        assert(cv[i as int] == (span.0 as int, span.1 as int));
        selections.push(select_span(span));
    }
    assert(selections@ =~= spans_selected(cv));
    Some((Selection::new(preferred.0, preferred.1), selections))
}

impl InputState {
    /// Grows each caret to the word around it. Returns whether that changed
    /// anything, or `None` where there is no caret.
    fn expand_carets(&mut self, document: &Document, text: &str) -> (changed: Option<bool>)
        requires
            old(self).wf(),
            document.wf(),
            document.bytes() == old(self).bytes(),
            old(self).bytes() == encode_utf8(text@),
        ensures
            changed is None ==> !has_caret(old(self).all_selections()) && *final(self) == *old(self),
            changed matches Some(changed) ==> expansion(*old(self), *final(self), changed),
            final(self).wf(),
            state::keeps_text(*old(self), *final(self), changed == Some(true)),
    {
        let current = self.selections();
        let ghost t = self.bytes();
        let mut any = false;
        let mut next: Vec<EditorSelection> = Vec::new();
        while next.len() < current.len()
            invariant
                *self == *old(self),
                self.wf(),
                document.wf(),
                document.bytes() == self.bytes(),
                t == self.bytes(),
                t == encode_utf8(text@),
                current@ == self.all_selections(),
                next@.len() <= current@.len(),
                any == (exists|i: int|
                    #![trigger current@[i]]
                    0 <= i < next@.len() && is_caret(current@[i])),
                forall|k: int|
                    0 <= k < next@.len() ==> #[trigger] next@[k] == expanded(t, current@)[k],
                forall|k: int|
                    #![trigger next@[k]]
                    0 <= k < next@.len() ==> cursors::is_on_boundaries(t, next@[k]),
            decreases current.len() - next.len(),
        {
            let ghost k = next@.len() as int;
            let selection = current[next.len()];
            assert(self.all_selections()[k] == selection);
            if selection.is_empty() {
                any = true;
                assert(is_caret(current@[k]));
                match chars::find_word(text, selection.head()) {
                    Some(span) => {
                        next.push(select_span(span));
                    },
                    None => {
                        next.push(selection);
                    },
                }
            } else {
                next.push(selection);
            }
            assert(next@[k] == expanded(t, current@)[k]);
        }
        if !any {
            return None;
        }
        assert(next@ =~= expanded(t, current@));
        if cursors::same_selections(&next, &current) {
            self.occurrence_session = None;
            assert(self.all_selections() =~= old(self).all_selections());
            return Some(false);
        }
        let mut session: Option<OccurrenceSession> = None;
        if current.len() == 1 {
            let query = slice_selected(document, next[0]);
            let size: usize = query.as_str().as_bytes().len();
            if size > 0 && size <= MAX_OCCURRENCE_QUERY_BYTES {
                session = Some(
                    OccurrenceSession {
                        query,
                        match_case: true,
                        whole_word: true,
                        text_version: self.text_version,
                        last_match: Some(next[0].range),
                    },
                );
            }
        }
        self.set_editor_selections(next);
        let ghost settled = *self;
        self.occurrence_session = session;
        assert(self.all_selections() =~= settled.all_selections());
        Some(true)
    }

    fn session_to_add(&self, document: &Document, text: &str) -> (session: Option<
        OccurrenceSession,
    >)
        requires
            self.wf(),
            document.wf(),
            document.bytes() == self.bytes(),
            self.bytes() == encode_utf8(text@),
        ensures
            session_model(session) == session_for_add(
                self.bytes(),
                self.all_selections(),
                self.text_version,
                session_model(self.occurrence_session),
            ),
    {
        match &self.occurrence_session {
            Some(session) => {
                if self.check_session_current(document, text, session) {
                    return Some(copy_session(session));
                }
            },
            None => {},
        }
        self.start_session(document)
    }

    fn session_to_select_all(&self, document: &Document, text: &str) -> (session: Option<
        OccurrenceSession,
    >)
        requires
            self.wf(),
            document.wf(),
            document.bytes() == self.bytes(),
            self.bytes() == encode_utf8(text@),
        ensures
            session_model(session) == session_for_select_all(
                self.bytes(),
                self.all_selections(),
                self.text_version,
                session_model(self.occurrence_session),
            ),
    {
        match &self.occurrence_session {
            Some(session) => {
                if self.check_session_current(document, text, session) {
                    return Some(copy_session(session));
                }
            },
            None => {},
        }
        let primary = self.primary_editor_selection();
        assert(self.all_selections()[0] == primary);
        let whole_word = primary.is_empty();
        let range = if whole_word {
            match chars::find_word(text, primary.head()) {
                Some((start, end)) => Selection::new(start, end),
                None => {
                    return None;
                },
            }
        } else {
            primary.range
        };
        let query = slice_selected(document, EditorSelection { range, reversed: false });
        let size: usize = query.as_str().as_bytes().len();
        if size == 0 || size > MAX_OCCURRENCE_QUERY_BYTES {
            return None;
        }
        Some(
            OccurrenceSession {
                query,
                match_case: whole_word,
                whole_word,
                text_version: self.text_version,
                last_match: Some(range),
            },
        )
    }

    /// Adds the next or the previous occurrence. The first call on a caret
    /// only grows it to its word.
    pub(crate) fn add_occurrence(&mut self, forward: bool) -> (changed: bool)
        requires
            old(self).wf(),
        ensures
            added_occurrence(*old(self), *final(self), forward, changed),
            final(self).wf(),
            state::keeps_text(*old(self), *final(self), changed),
    {
        let text = rope::rope_to_string(&self.text);
        let document = self.document();
        match self.expand_carets(&document, text.as_str()) {
            Some(changed) => {
                return changed;
            },
            None => {},
        }
        let selections = self.selections();
        if selections.len() >= cursors::MAX_EDITOR_SELECTIONS {
            return false;
        }
        let session = match self.session_to_add(&document, text.as_str()) {
            Some(session) => session,
            None => {
                self.occurrence_session = None;
                assert(self.all_selections() =~= old(self).all_selections());
                return false;
            },
        };
        let ghost model = session.model();
        let spans = self.find_occurrences(text.as_str(), &session);
        let picked = pick_occurrence(
            &spans,
            &selections,
            session.last_match,
            document.len(),
            forward,
        );
        let mut session = session;
        match picked {
            None => {
                self.occurrence_session = Some(session);
                assert(self.all_selections() =~= old(self).all_selections());
                false
            },
            Some(span) => {
                let mut next = selections;
                next.push(select_span(span));
                self.set_editor_selections(next);
                let ghost settled = *self;
                session.text_version = self.text_version;
                session.last_match = Some(Selection::new(span.0, span.1));
                self.occurrence_session = Some(session);
                assert(self.all_selections() =~= settled.all_selections());
                true
            },
        }
    }

    /// Expand a collapsed caret to its word, then add the next literal
    /// occurrence on repeated invocations. Matches wrap once and existing
    /// selections are never duplicated.
    pub fn add_next_occurrence(&mut self) -> (changed: bool)
        requires
            old(self).wf(),
        ensures
            added_occurrence(*old(self), *final(self), true, changed),
            final(self).wf(),
            state::keeps_text(*old(self), *final(self), changed),
    {
        self.add_occurrence(true)
    }

    /// Add the previous literal occurrence using the same retained search
    /// session as [`Self::add_next_occurrence`].
    pub fn add_previous_occurrence(&mut self) -> (changed: bool)
        requires
            old(self).wf(),
        ensures
            added_occurrence(*old(self), *final(self), false, changed),
            final(self).wf(),
            state::keeps_text(*old(self), *final(self), changed),
    {
        self.add_occurrence(false)
    }

    /// Select every literal occurrence of the primary selection, or every
    /// whole-word occurrence under a collapsed primary caret. The occurrence
    /// intersecting the original primary selection remains primary.
    pub fn select_all_occurrences(&mut self) -> (changed: bool)
        requires
            old(self).wf(),
        ensures
            selected_all(*old(self), *final(self), changed),
            final(self).wf(),
            state::keeps_text(*old(self), *final(self), changed),
    {
        let text = rope::rope_to_string(&self.text);
        let document = self.document();
        let primary = self.primary_editor_selection();
        assert(self.all_selections()[0] == primary);
        let session = match self.session_to_select_all(&document, text.as_str()) {
            Some(session) => session,
            None => {
                return false;
            },
        };
        let spans = self.find_occurrences(text.as_str(), &session);
        let mut session = session;
        match choose_occurrences(&spans, primary) {
            None => false,
            Some((preferred, next)) => {
                let current = self.selections();
                if cursors::same_selections(&next, &current) {
                    return false;
                }
                self.set_editor_selections(next);
                let ghost settled = *self;
                session.text_version = self.text_version;
                session.last_match = Some(preferred);
                self.occurrence_session = Some(session);
                assert(self.all_selections() =~= settled.all_selections());
                true
            },
        }
    }
}

/// What growing the carets to their words does to the selections and the session.
pub open spec fn expansion(before: InputState, after: InputState, changed: bool) -> bool {
    let t = before.bytes();
    let current = before.all_selections();
    let next = expanded(t, current);
    &&& has_caret(current)
    &&& changed == (next != current)
    &&& after.all_selections() == if changed {
        cursors::normalized(t, next, before.primary())
    } else {
        current
    }
    &&& session_model(after.occurrence_session) == if changed && current.len() == 1 {
        word_session(t, next[0], before.text_version)
    } else {
        None
    }
    &&& changed ==> after.snippet_session is None
    &&& !changed ==> after.snippet_session == before.snippet_session
}

/// What adding an occurrence does to the selections and the session.
pub open spec fn added_occurrence(
    before: InputState,
    after: InputState,
    forward: bool,
    changed: bool,
) -> bool {
    let t = before.bytes();
    let current = before.all_selections();
    if has_caret(current) {
        expansion(before, after, changed)
    } else if current.len() >= cursors::MAX_EDITOR_SELECTIONS {
        !changed && after == before
    } else {
        match session_for_add(
            t,
            current,
            before.text_version,
            session_model(before.occurrence_session),
        ) {
            None => !changed && after.all_selections() == current && after.occurrence_session
                is None && after.snippet_session == before.snippet_session,
            Some(session) => match next_occurrence(
                occurrences_of(rope::rope_chars(before.text), session),
                current,
                session.last_match,
                t.len() as int,
                forward,
            ) {
                None => !changed && after.all_selections() == current && session_model(
                    after.occurrence_session,
                ) == Some(session) && after.snippet_session == before.snippet_session,
                Some(span) => {
                    &&& changed
                    &&& after.snippet_session is None
                    &&& after.all_selections() == cursors::normalized(
                        t,
                        current.push(
                            cursor::spec_from_anchor_and_head(span.0 as usize, span.1 as usize),
                        ),
                        before.primary(),
                    )
                    &&& session_model(after.occurrence_session) == Some(
                        SessionModel {
                            text_version: before.text_version,
                            last_match: Some(
                                Selection { start: span.0 as usize, end: span.1 as usize },
                            ),
                            ..session
                        },
                    )
                },
            },
        }
    }
}

/// What selecting all occurrences does to the selections and the session.
pub open spec fn selected_all(before: InputState, after: InputState, changed: bool) -> bool {
    let t = before.bytes();
    let current = before.all_selections();
    match session_for_select_all(
        t,
        current,
        before.text_version,
        session_model(before.occurrence_session),
    ) {
        None => !changed && after == before,
        Some(session) => {
            let spans = occurrences_of(rope::rope_chars(before.text), session);
            match preferred_span(spans, before.primary()) {
                None => !changed && after == before,
                Some(span) => {
                    let next = spans_selected(chosen_spans(spans, span));
                    &&& changed == (next != current)
                    &&& !changed ==> after == before
                    &&& changed ==> after.snippet_session is None
                    &&& changed ==> after.all_selections() == cursors::normalized(
                        t,
                        next,
                        before.primary(),
                    )
                    &&& changed ==> session_model(after.occurrence_session) == Some(
                        SessionModel {
                            text_version: before.text_version,
                            last_match: Some(
                                Selection { start: span.0 as usize, end: span.1 as usize },
                            ),
                            ..session
                        },
                    )
                },
            }
        },
    }
}

/// The occurrence to select next is one of those found, and none that is
/// selected already.
pub proof fn law_next_occurrence_is_new(
    spans: Seq<(int, int)>,
    selections: Seq<EditorSelection>,
    last_match: Option<Selection>,
    len: int,
    forward: bool,
)
    ensures
        next_occurrence(spans, selections, last_match, len, forward) matches Some(span)
            ==> spans.contains(span) && !is_selected(selections, span),
{
    let ahead = match last_match {
        Some(range) => range.end as int,
        None => 0,
    };
    let behind = match last_match {
        Some(range) => range.start as int,
        None => len,
    };
    lemma_first_unselected(spans, selections, ahead, 0);
    lemma_first_unselected(spans, selections, 0, 0);
    lemma_last_unselected(spans, selections, behind, spans.len() as int);
    lemma_last_unselected(spans, selections, len, spans.len() as int);
}

proof fn lemma_first_unselected(
    spans: Seq<(int, int)>,
    selections: Seq<EditorSelection>,
    boundary: int,
    from: int,
)
    requires
        0 <= from,
    ensures
        first_unselected(spans, selections, boundary, from) matches Some(span) ==> spans.contains(
            span,
        ) && !is_selected(selections, span),
    decreases spans.len() - from,
{
    if from < spans.len() {
        lemma_first_unselected(spans, selections, boundary, from + 1);
    }
}

proof fn lemma_last_unselected(
    spans: Seq<(int, int)>,
    selections: Seq<EditorSelection>,
    boundary: int,
    n: int,
)
    requires
        n <= spans.len(),
    ensures
        last_unselected(spans, selections, boundary, n) matches Some(span) ==> spans.contains(span)
            && !is_selected(selections, span),
    decreases n,
{
    if n > 0 {
        lemma_last_unselected(spans, selections, boundary, n - 1);
    }
}

/// The spans of one search do not meet but at their ends, and none is empty.
proof fn lemma_spans_differ(t: Seq<u8>, spans: Seq<(int, int)>, i: int, j: int)
    requires
        matching::spans_wf(t, spans),
        forall|k: int| #![trigger spans[k]] 0 <= k < spans.len() ==> spans[k].0 < spans[k].1,
        0 <= i < spans.len(),
        0 <= j < spans.len(),
        i != j,
    ensures
        spans[i] != spans[j],
        spans[i].1 <= spans[j].0 || spans[j].1 <= spans[i].0,
{
    if i < j {
        assert(spans[i].1 <= spans[j].0);
    } else {
        assert(spans[j].1 <= spans[i].0);
    }
}

/// Each is one of the spans, and no two are the same.
spec fn are_some_of(chosen: Seq<(int, int)>, spans: Seq<(int, int)>) -> bool {
    &&& forall|i: int| #![trigger chosen[i]] 0 <= i < chosen.len() ==> spans.contains(chosen[i])
    &&& forall|i: int, j: int|
        #![trigger chosen[i], chosen[j]]
        0 <= i < j < chosen.len() ==> chosen[i] != chosen[j]
}

proof fn lemma_bounded_spans(t: Seq<u8>, spans: Seq<(int, int)>, preferred: (int, int))
    requires
        matching::spans_wf(t, spans),
        forall|k: int| #![trigger spans[k]] 0 <= k < spans.len() ==> spans[k].0 < spans[k].1,
        spans.contains(preferred),
    ensures
        are_some_of(bounded_spans(spans, preferred), spans),
        bounded_spans(spans, preferred).contains(preferred),
        1 <= bounded_spans(spans, preferred).len() <= cursors::MAX_EDITOR_SELECTIONS,
{
    let most = cursors::MAX_EDITOR_SELECTIONS as int;
    let base = if spans.len() <= most {
        spans
    } else {
        spans.take(most)
    };
    let bounded = bounded_spans(spans, preferred);
    assert forall|i: int| #![trigger base[i]] 0 <= i < base.len() implies base[i] == spans[i] by {}
    if !base.contains(preferred) {
        if spans.len() <= most {
            assert(base == spans);
        }
        assert(bounded == base.drop_last().push(preferred));
        assert(bounded[bounded.len() - 1] == preferred);
    }
    assert forall|i: int| #![trigger bounded[i]] 0 <= i < bounded.len() implies spans.contains(
        bounded[i],
    ) by {
        if i < bounded.len() - 1 || base.contains(preferred) {
            assert(bounded[i] == base[i]);
            assert(spans[i] == base[i]);
        }
    }
    assert forall|i: int, j: int|
        #![trigger bounded[i], bounded[j]]
        0 <= i < j < bounded.len() implies bounded[i] != bounded[j] by {
        assert(bounded[i] == base[i]);
        if j < bounded.len() - 1 || base.contains(preferred) {
            assert(bounded[j] == base[j]);
            lemma_spans_differ(t, spans, i, j);
        }
    }
}

proof fn lemma_span_index(spans: Seq<(int, int)>, wanted: (int, int), from: int)
    requires
        0 <= from <= spans.len(),
        exists|k: int| from <= k < spans.len() && #[trigger] spans[k] == wanted,
    ensures
        from <= span_index(spans, wanted, from) < spans.len(),
        spans[span_index(spans, wanted, from)] == wanted,
    decreases spans.len() - from,
{
    if spans[from] != wanted {
        let k = choose|k: int| from <= k < spans.len() && #[trigger] spans[k] == wanted;
        assert(from + 1 <= k);
        lemma_span_index(spans, wanted, from + 1);
    }
}

/// Where a span intersects the selection, so does the one that stays primary.
proof fn lemma_last_intersecting(spans: Seq<(int, int)>, selection: EditorSelection, n: int)
    requires
        0 <= n <= spans.len(),
    ensures
        match last_intersecting(spans, selection, n) {
            Some(span) => spans.contains(span) && intersects(span, selection),
            None => forall|k: int|
                #![trigger spans[k]]
                0 <= k < n ==> !intersects(spans[k], selection),
        },
    decreases n,
{
    if n > 0 && !intersects(spans[n - 1], selection) {
        lemma_last_intersecting(spans, selection, n - 1);
    }
}

/// When all occurrences are selected, each of them once and at most as many as
/// there can be, one that intersects the primary selection stays primary, if
/// there is one.
pub proof fn law_primary_occurrence_stays(
    t: Seq<u8>,
    spans: Seq<(int, int)>,
    primary: EditorSelection,
    fallback: EditorSelection,
)
    requires
        matching::spans_wf(t, spans),
        t.len() <= usize::MAX,
        spans.len() > 0,
        forall|k: int| #![trigger spans[k]] 0 <= k < spans.len() ==> spans[k].0 < spans[k].1,
    ensures
        preferred_span(spans, primary) is Some,
        ({
            let preferred = preferred_span(spans, primary)->Some_0;
            let next = spans_selected(chosen_spans(spans, preferred));
            let after = cursors::normalized(t, next, fallback);
            &&& after.len() == next.len()
            &&& after[0].range.start == preferred.0
            &&& after[0].range.end == preferred.1
            &&& (exists|k: int|
                #![trigger spans[k]]
                0 <= k < spans.len() && intersects(spans[k], primary)) ==> intersects(
                preferred,
                primary,
            )
        }),
{
    lemma_last_intersecting(spans, primary, spans.len() as int);
    let preferred = preferred_span(spans, primary)->Some_0;
    assert(spans.contains(spans[0]));
    lemma_bounded_spans(t, spans, preferred);
    let bounded = bounded_spans(spans, preferred);
    let at = span_index(bounded, preferred, 0);
    lemma_span_index(bounded, preferred, 0);
    let chosen = chosen_spans(spans, preferred);
    assert forall|i: int| #![trigger chosen[i]] 0 <= i < chosen.len() implies spans.contains(
        chosen[i],
    ) by {
        assert(spans.contains(bounded[0]));
        assert(spans.contains(bounded[i]));
    }
    assert forall|i: int, j: int|
        #![trigger chosen[i], chosen[j]]
        0 <= i < j < chosen.len() implies chosen[i] != chosen[j] by {
        let a = if i == 0 {
            at
        } else if i == at {
            0
        } else {
            i
        };
        let b = if j == at {
            0
        } else {
            j
        };
        assert(chosen[i] == bounded[a] && chosen[j] == bounded[b]);
        assert(a != b);
        if a < b {
            assert(bounded[a] != bounded[b]);
        } else {
            assert(bounded[b] != bounded[a]);
        }
    }
    let next = spans_selected(chosen);
    assert forall|i: int| #![trigger next[i]] 0 <= i < next.len() implies cursors::is_on_boundaries(
        t,
        next[i],
    ) && !next[i].reversed && next[i].range.start == chosen[i].0 && next[i].range.end
        == chosen[i].1 && chosen[i].0 < chosen[i].1 by {
        assert(spans.contains(chosen[i]));
        let k = choose|k: int| 0 <= k < spans.len() && spans[k] == chosen[i];
        assert(0 <= spans[k].0 <= spans[k].1 <= t.len());
    }
    assert forall|i: int, j: int|
        #![trigger next[i], next[j]]
        0 <= i < next.len() && 0 <= j < next.len() && i != j implies cursors::are_apart(
        next[i],
        next[j],
    ) by {
        assert(spans.contains(chosen[i]) && spans.contains(chosen[j]));
        let a = choose|k: int| 0 <= k < spans.len() && spans[k] == chosen[i];
        let b = choose|k: int| 0 <= k < spans.len() && spans[k] == chosen[j];
        if i < j {
            assert(chosen[i] != chosen[j]);
        } else {
            assert(chosen[j] != chosen[i]);
        }
        lemma_spans_differ(t, spans, a, b);
    }
    cursors::law_first_selection_stays(t, next, fallback);
}

} // verus!
