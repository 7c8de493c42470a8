//! Which words and occurrences are selected.

use crate::chars;
use crate::cursor::{EditorSelection, Selection};
use crate::lsp::linked_editing;
use crate::multi_cursor as cursors;
use crate::occurrences;
use crate::scalars;
use crate::text;
use vstd::prelude::*;
use vstd::utf8::*;

verus! {

/// A letter, a digit or an underscore.
pub open spec fn is_of_word(c: char) -> bool {
    c == '_' || chars::char_is_alphanumeric(c)
}

/// `w` is a whole word between `x` and `y`.
pub open spec fn is_word_between(x: Seq<char>, w: Seq<char>, y: Seq<char>) -> bool {
    &&& forall|i: int| 0 <= i < w.len() ==> is_of_word(#[trigger] w[i])
    &&& x.len() == 0 || !is_of_word(x.last())
    &&& y.len() == 0 || !is_of_word(y[0])
}

proof fn lemma_word_end(x: Seq<char>, w: Seq<char>, y: Seq<char>, k: int)
    requires
        is_word_between(x, w, y),
        0 <= k <= w.len(),
    ensures
        ({
            let s = x + w + y;
            chars::word_end(
                encode_utf8(s),
                encode_utf8(s.take(x.len() + k)).len() as int,
            ) == encode_utf8(x + w).len()
        }),
    decreases w.len() - k,
{
    let s = x + w + y;
    let t = encode_utf8(s);
    let i = x.len() + k;
    if k < w.len() {
        scalars::lemma_char_place(s, i);
        assert(s[i] == w[k]);
        lemma_word_end(x, w, y, k + 1);
    } else {
        assert(s.take(i) =~= x + w);
        if y.len() > 0 {
            scalars::lemma_char_place(s, i);
            assert(s[i] == y[0]);
        } else {
            assert(s =~= x + w);
        }
    }
}

pub proof fn lemma_word_start(x: Seq<char>, w: Seq<char>, y: Seq<char>, k: int)
    requires
        forall|i: int| 0 <= i < w.len() ==> is_of_word(#[trigger] w[i]),
        x.len() == 0 || !is_of_word(x.last()),
        0 <= k <= w.len(),
    ensures
        ({
            let s = x + w + y;
            chars::word_start(
                encode_utf8(s),
                encode_utf8(s.take(x.len() + k)).len() as int,
            ) == encode_utf8(x).len()
        }),
    decreases k,
{
    let s = x + w + y;
    let i = x.len() + k;
    if k > 0 {
        scalars::lemma_char_place(s, i - 1);
        assert(s[i - 1] == w[k - 1]);
        lemma_word_start(x, w, y, k - 1);
    } else {
        assert(s.take(i) =~= x);
        if x.len() > 0 {
            scalars::lemma_char_place(s, i - 1);
            assert(s[i - 1] == x.last());
        } else {
            assert(x =~= Seq::empty());
            assert(encode_utf8(x) =~= Seq::<u8>::empty());
        }
    }
}

/// The word at an offset is the longest run of letters, digits and underscores around
/// it; where none touches it, or at the end of the text, there is no word.
#[verifier::rlimit(30)]
pub proof fn law_word_at(x: Seq<char>, w: Seq<char>, y: Seq<char>, k: int)
    requires
        is_word_between(x, w, y),
        0 <= k <= w.len(),
    ensures
        ({
            let s = x + w + y;
            let t = encode_utf8(s);
            let o = encode_utf8(s.take(x.len() + k)).len() as int;
            chars::word_range(t, o) == if w.len() == 0 || o == t.len() {
                None
            } else {
                Some((encode_utf8(x).len() as int, encode_utf8(x + w).len() as int))
            }
        }),
{
    let s = x + w + y;
    let t = encode_utf8(s);
    let i = x.len() + k;
    let o = encode_utf8(s.take(i)).len() as int;
    lemma_word_end(x, w, y, k);
    lemma_word_start(x, w, y, k);
    linked_editing::lemma_char_boundary(s, i);
    text::lemma_floor_boundary(t, o);
    text::lemma_encode_concat(x, w);
    if w.len() > 0 {
        scalars::lemma_char_place(s, x.len() as int);
        assert(s.take(x.len() as int) =~= x);
        assert(w =~= seq![w[0]] + w.skip(1));
        text::lemma_encode_concat(seq![w[0]], w.skip(1));
        assert(s[x.len() as int] == w[0]);
    } else {
        assert(w =~= Seq::empty());
        assert(encode_utf8(w) =~= Seq::<u8>::empty());
    }
}

/// A span is selected just as it is.
pub open spec fn is_taken(selections: Seq<EditorSelection>, span: (int, int)) -> bool {
    exists|i: int|
        #![trigger selections[i]]
        0 <= i < selections.len() && selections[i].range.start == span.0 && selections[i].range.end
            == span.1
}

#[verifier::rlimit(30)]
proof fn lemma_first(
    spans: Seq<(int, int)>,
    selections: Seq<EditorSelection>,
    boundary: int,
    from: int,
)
    requires
        0 <= from <= spans.len(),
    ensures
        match occurrences::first_unselected(spans, selections, boundary, from) {
            Some(span) => exists|i: int|
                from <= i < spans.len() && #[trigger] spans[i] == span && !is_taken(selections, span)
                    && span.0 >= boundary && forall|j: int|
                    from <= j < i ==> is_taken(selections, #[trigger] spans[j]) || spans[j].0 < boundary,
            None => forall|j: int|
                from <= j < spans.len() ==> is_taken(selections, #[trigger] spans[j]) || spans[j].0
                    < boundary,
        },
    decreases spans.len() - from,
{
    if from < spans.len() {
        let found = occurrences::first_unselected(spans, selections, boundary, from);
        if !is_taken(selections, spans[from]) && spans[from].0 >= boundary {
            assert(found == Some(spans[from]));
        } else {
            lemma_first(spans, selections, boundary, from + 1);
            if found is Some {
                let i = choose|i: int|
                    from + 1 <= i < spans.len() && #[trigger] spans[i] == found->Some_0 && !is_taken(
                        selections,
                        found->Some_0,
                    ) && found->Some_0.0 >= boundary && forall|j: int|
                        from + 1 <= j < i ==> is_taken(selections, #[trigger] spans[j]) || spans[j].0
                            < boundary;
                assert(from <= i < spans.len());
            }
        }
    }
}

#[verifier::rlimit(30)]
proof fn lemma_last(
    spans: Seq<(int, int)>,
    selections: Seq<EditorSelection>,
    boundary: int,
    n: int,
)
    requires
        0 <= n <= spans.len(),
    ensures
        match occurrences::last_unselected(spans, selections, boundary, n) {
            Some(span) => exists|i: int|
                0 <= i < n && #[trigger] spans[i] == span && !is_taken(selections, span) && span.1
                    <= boundary && forall|j: int|
                    i < j < n ==> is_taken(selections, #[trigger] spans[j]) || spans[j].1 > boundary,
            None => forall|j: int|
                0 <= j < n ==> is_taken(selections, #[trigger] spans[j]) || spans[j].1 > boundary,
        },
    decreases n,
{
    if n > 0 {
        let found = occurrences::last_unselected(spans, selections, boundary, n);
        if !is_taken(selections, spans[n - 1]) && spans[n - 1].1 <= boundary {
            assert(found == Some(spans[n - 1]));
        } else {
            lemma_last(spans, selections, boundary, n - 1);
            if found is Some {
                let i = choose|i: int|
                    0 <= i < n - 1 && #[trigger] spans[i] == found->Some_0 && !is_taken(
                        selections,
                        found->Some_0,
                    ) && found->Some_0.1 <= boundary && forall|j: int|
                        i < j < n - 1 ==> is_taken(selections, #[trigger] spans[j]) || spans[j].1
                            > boundary;
                assert(0 <= i < n);
            }
        }
    }
}

/// Going on, the next occurrence is the first one behind the last match that is not
/// selected, and from the start of the text where there is none; going back, it is the
/// last one before it, and from the end of the text. There is none only where all are
/// selected.
pub proof fn law_next_occurrence(
    spans: Seq<(int, int)>,
    selections: Seq<EditorSelection>,
    last: Selection,
    len: int,
    k: int,
)
    requires
        forall|i: int, j: int|
            #![trigger spans[i], spans[j]]
            0 <= i < j < spans.len() ==> spans[i].1 <= spans[j].0,
        forall|i: int|
            #![trigger spans[i]]
            0 <= i < spans.len() ==> 0 <= spans[i].0 <= spans[i].1 <= len,
        0 <= k < spans.len(),
        !is_taken(selections, spans[k]),
    ensures
        ({
            let on = occurrences::next_occurrence(spans, selections, Some(last), len, true);
            let back = occurrences::next_occurrence(spans, selections, Some(last), len, false);
            &&& on matches Some(span) && spans.contains(span) && !is_taken(selections, span) && {
                &&& spans[k].0 >= last.end ==> last.end <= span.0 <= spans[k].0
                &&& span.0 < last.end ==> span.0 <= spans[k].0
            }
            &&& back matches Some(span) && spans.contains(span) && !is_taken(selections, span) && {
                &&& spans[k].1 <= last.start ==> spans[k].1 <= span.1 <= last.start
                &&& span.1 > last.start ==> spans[k].1 <= span.1
            }
        }),
{
    let n = spans.len() as int;
    lemma_first(spans, selections, last.end as int, 0);
    lemma_first(spans, selections, 0, 0);
    lemma_last(spans, selections, last.start as int, n);
    lemma_last(spans, selections, len, n);
}

/// Where all occurrences are selected, each of them is, as far as there can be so many
/// selections.
#[verifier::rlimit(30)]
pub proof fn law_all_are_selected(
    spans: Seq<(int, int)>,
    primary: EditorSelection,
    k: int,
)
    requires
        0 <= k < spans.len() <= cursors::MAX_EDITOR_SELECTIONS,
    ensures
        ({
            let preferred = occurrences::preferred_span(spans, primary)->Some_0;
            let chosen = occurrences::chosen_spans(spans, preferred);
            &&& chosen.len() == spans.len()
            &&& chosen.contains(spans[k])
            &&& chosen[0] == preferred
        }),
{
    let n = spans.len() as int;
    lemma_intersecting(spans, primary, n);
    let preferred = occurrences::preferred_span(spans, primary)->Some_0;
    assert(spans.contains(preferred)) by {
        assert(spans[0] == spans[0]);
    }
    let bounded = occurrences::bounded_spans(spans, preferred);
    assert(bounded == spans);
    lemma_index(spans, preferred, 0);
    let at = occurrences::span_index(spans, preferred, 0);
    let chosen = occurrences::chosen_spans(spans, preferred);
    assert(chosen == spans.update(at, spans[0]).update(0, preferred));
    assert(chosen[0] == preferred);
    if spans[k] == preferred {
        assert(chosen[0] == spans[k]);
    } else if k == 0 {
        assert(chosen[at] == spans[0]);
    } else {
        assert(chosen[k] == spans[k]);
    }
}

proof fn lemma_intersecting(spans: Seq<(int, int)>, selection: EditorSelection, n: int)
    requires
        0 <= n <= spans.len(),
    ensures
        occurrences::last_intersecting(spans, selection, n) matches Some(span) ==> spans.contains(
            span,
        ),
    decreases n,
{
    if n > 0 {
        lemma_intersecting(spans, selection, n - 1);
        assert(spans.contains(spans[n - 1]));
    }
}

proof fn lemma_index(spans: Seq<(int, int)>, wanted: (int, int), from: int)
    requires
        0 <= from <= spans.len(),
        exists|i: int| from <= i < spans.len() && spans[i] == wanted,
    ensures
        from <= occurrences::span_index(spans, wanted, from) < spans.len(),
        spans[occurrences::span_index(spans, wanted, from)] == wanted,
    decreases spans.len() - from,
{
    let i = choose|i: int| from <= i < spans.len() && spans[i] == wanted;
    if spans[from] != wanted {
        assert(from + 1 <= i < spans.len() && spans[i] == wanted);
        lemma_index(spans, wanted, from + 1);
    }
}

/// What a selected text looks for it looks for in any case and also inside words; a
/// caret looks for its word, whole and in its own case.
pub proof fn law_what_is_looked_for(
    t: Seq<u8>,
    selections: Seq<EditorSelection>,
    word: EditorSelection,
    version: usize,
)
    requires
        selections.len() > 0,
    ensures
        occurrences::started_session(t, selections, version) matches Some(session)
            ==> !session.match_case && !session.whole_word && session.query == decode_utf8(
            t.subrange(selections[0].range.start as int, selections[0].range.end as int),
        ) && session.text_version == version,
        occurrences::word_session(t, word, version) matches Some(session) ==> session.match_case
            && session.whole_word && session.query == decode_utf8(
            t.subrange(word.range.start as int, word.range.end as int),
        ) && session.last_match == Some(word.range),
        selections[0].range.start == selections[0].range.end ==> occurrences::started_session(
            t,
            selections,
            version,
        ) is None,
{
}

/// Two texts are the same occurrence where they are equal, and, where case does not
/// matter, where they differ only in the case of ASCII letters.
pub proof fn law_same_occurrence(a: Seq<char>, b: Seq<char>)
    ensures
        occurrences::same_occurrence(a, b, true) <==> a == b,
        occurrences::same_occurrence(a, b, true) ==> occurrences::same_occurrence(a, b, false),
        a.len() == b.len() && (forall|i: int|
            0 <= i < a.len() ==> #[trigger] a[i] == b[i] || 'A' <= a[i] && a[i] <= 'Z' && b[i] as int
                == a[i] as int + 32) ==> occurrences::same_occurrence(a, b, false),
{
    if a.len() == b.len() && (forall|i: int|
        0 <= i < a.len() ==> #[trigger] a[i] == b[i] || 'A' <= a[i] && a[i] <= 'Z' && b[i] as int
            == a[i] as int + 32) {
        assert forall|i: int| 0 <= i < a.len() implies chars::ascii_lower(#[trigger] a[i])
            == chars::ascii_lower(b[i]) by {
            assert(a[i] == b[i] || 'A' <= a[i] && a[i] <= 'Z' && b[i] as int == a[i] as int + 32);
        }
    }
}

/// The span and the selection have something in common; a caret may stand at an end of
/// the span.
pub open spec fn meets(span: (int, int), selection: EditorSelection) -> bool {
    let (start, end) = (selection.range.start as int, selection.range.end as int);
    if start == end {
        span.0 <= start && start <= span.1
    } else {
        span.0 < end && start < span.1
    }
}

proof fn lemma_last_meeting(spans: Seq<(int, int)>, selection: EditorSelection, n: int)
    requires
        0 <= n <= spans.len(),
    ensures
        match occurrences::last_intersecting(spans, selection, n) {
            Some(span) => exists|i: int|
                0 <= i < n && #[trigger] spans[i] == span && meets(span, selection) && forall|j: int|
                    i < j < n ==> !meets(#[trigger] spans[j], selection),
            None => forall|j: int| 0 <= j < n ==> !meets(#[trigger] spans[j], selection),
        },
    decreases n,
{
    if n > 0 {
        lemma_last_meeting(spans, selection, n - 1);
        let found = occurrences::last_intersecting(spans, selection, n);
        if meets(spans[n - 1], selection) {
            assert(found == Some(spans[n - 1]));
        } else if found is Some {
            let i = choose|i: int|
                0 <= i < n - 1 && #[trigger] spans[i] == found->Some_0 && meets(
                    found->Some_0,
                    selection,
                ) && forall|j: int| i < j < n - 1 ==> !meets(#[trigger] spans[j], selection);
            assert(i < n);
        }
    }
}

/// The occurrence that becomes the primary selection is the last that meets the primary
/// selection, and the first of all where none does.
pub proof fn law_primary_occurrence(spans: Seq<(int, int)>, primary: EditorSelection)
    requires
        spans.len() > 0,
    ensures
        ({
            let chosen = occurrences::preferred_span(spans, primary);
            &&& (forall|j: int| 0 <= j < spans.len() ==> !meets(#[trigger] spans[j], primary))
                ==> chosen == Some(spans[0])
            &&& (exists|j: int| 0 <= j < spans.len() && meets(#[trigger] spans[j], primary))
                ==> exists|i: int|
                0 <= i < spans.len() && chosen == Some(#[trigger] spans[i]) && meets(
                    spans[i],
                    primary,
                ) && forall|j: int| i < j < spans.len() ==> !meets(#[trigger] spans[j], primary)
        }),
{
    lemma_last_meeting(spans, primary, spans.len() as int);
}

/// Where whole words are looked for, a match is an occurrence just where it is the word
/// at its start; else every match is one.
#[verifier::rlimit(30)]
pub proof fn law_admitted_matches(
    t: Seq<u8>,
    matches: Seq<(int, int)>,
    whole_word: bool,
    n: int,
    span: (int, int),
)
    requires
        0 <= n <= matches.len(),
    ensures
        !whole_word ==> occurrences::admitted_matches(t, matches, whole_word, n) == matches.take(n),
        whole_word ==> (occurrences::admitted_matches(t, matches, whole_word, n).contains(span)
            <==> matches.take(n).contains(span) && chars::word_range(t, span.0) == Some(span)),
    decreases n,
{
    let now = occurrences::admitted_matches(t, matches, whole_word, n);
    if n > 0 {
        law_admitted_matches(t, matches, whole_word, n - 1, span);
        let before = occurrences::admitted_matches(t, matches, whole_word, n - 1);
        let own = matches[n - 1];
        assert(matches.take(n) =~= matches.take(n - 1).push(own));
        if matches.take(n - 1).contains(span) {
            let k = choose|k: int| 0 <= k < n - 1 && #[trigger] matches.take(n - 1)[k] == span;
            assert(matches.take(n)[k] == span);
        }
        if matches.take(n).contains(span) {
            let k = choose|k: int| 0 <= k < n && #[trigger] matches.take(n)[k] == span;
            if k < n - 1 {
                assert(matches.take(n - 1)[k] == span);
            }
        }
        if before.contains(span) {
            let k = choose|k: int| 0 <= k < before.len() && before[k] == span;
            assert(now[k] == span);
        }
        if now.contains(span) {
            let k = choose|k: int| 0 <= k < now.len() && now[k] == span;
            if k < before.len() {
                assert(before[k] == span);
            }
        }
        if own == span {
            assert(matches.take(n)[n - 1] == span);
            if chars::word_range(t, span.0) == Some(span) {
                assert(now.last() == span);
            }
        }
    } else {
        assert(matches.take(0) =~= Seq::empty());
    }
}

/// A caret in a word looks for all places of that word, whole and in its own case; one
/// that touches no word looks for nothing.
pub proof fn law_what_all_are_looked_for(
    x: Seq<char>,
    w: Seq<char>,
    y: Seq<char>,
    k: int,
    selection: EditorSelection,
    version: usize,
)
    requires
        is_word_between(x, w, y),
        0 <= k <= w.len(),
        encode_utf8(w).len() <= occurrences::MAX_OCCURRENCE_QUERY_BYTES,
        selection.range.start == selection.range.end,
        selection.range.start == encode_utf8((x + w + y).take(x.len() + k)).len(),
        selection.range.start < encode_utf8(x + w + y).len(),
    ensures
        ({
            let t = encode_utf8(x + w + y);
            let session = occurrences::session_for_select_all(t, seq![selection], version, None);
            &&& w.len() == 0 ==> session is None
            &&& w.len() > 0 ==> session is Some && (session->Some_0).query == w && (
            session->Some_0).match_case && (session->Some_0).whole_word
        }),
{
    let s = x + w + y;
    let t = encode_utf8(s);
    law_word_at(x, w, y, k);
    assert(seq![selection][0] == selection);
    if w.len() > 0 {
        text::lemma_encode_concat(x, w);
        text::lemma_encode_concat(x + w, y);
        assert(t.subrange(encode_utf8(x).len() as int, encode_utf8(x + w).len() as int)
            =~= encode_utf8(w));
        encode_utf8_decode_utf8(w);
        scalars::lemma_char_place(w, 0);
    }
}

} // verus!
