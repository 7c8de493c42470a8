//! Which ranges of a language server are kept, and how linked ranges go together.

use crate::lsp::document_links;
use crate::lsp::items;
use crate::lsp::linked_editing;
use crate::lsp::position;
use crate::lsp::TextRange;
use vstd::prelude::*;

verus! {

/// `next` does not start behind the end of `previous`, or, where they may touch,
/// starts before it.
pub open spec fn runs_into(previous: TextRange, next: TextRange, may_touch: bool) -> bool {
    let (a, b) = (previous.end, next.start);
    if may_touch {
        b.line < a.line || (b.line == a.line && b.character < a.character)
    } else {
        b.line == a.line && b.character <= a.character
    }
}

/// Of ranges in order the first is kept, and so is every range that does not run into
/// the one kept last before it.
pub proof fn law_kept_ranges(
    ranges: Seq<TextRange>,
    indices: Seq<int>,
    may_touch: bool,
    n: int,
)
    requires
        0 < n <= indices.len(),
    ensures
        ({
            let before = items::separated(ranges, indices, may_touch, n - 1);
            let kept = items::separated(ranges, indices, may_touch, n);
            let own = indices[n - 1];
            &&& kept.len() > 0 && kept[0] == indices[0]
            &&& kept == before || kept == before.push(own)
            &&& before.len() > 0 ==> (kept == before.push(own) <==> !runs_into(
                ranges[before.last()],
                ranges[own],
                may_touch,
            ))
        }),
    decreases n,
{
    let before = items::separated(ranges, indices, may_touch, n - 1);
    if n > 1 {
        law_kept_ranges(ranges, indices, may_touch, n - 1);
        assert(before.push(indices[n - 1])[0] == before[0]);
        assert(before.push(indices[n - 1]).len() != before.len());
    }
}

/// What is flagged is chosen, and nothing else.
pub proof fn law_flagged_are_chosen(flags: Seq<bool>, n: int, i: int)
    requires
        0 <= n <= flags.len(),
    ensures
        items::flagged(flags, n).contains(i) <==> 0 <= i < n && flags[i],
    decreases n,
{
    let now = items::flagged(flags, n);
    if n > 0 {
        law_flagged_are_chosen(flags, n - 1, i);
        let before = items::flagged(flags, n - 1);
        if before.contains(i) {
            let k = choose|k: int| 0 <= k < before.len() && before[k] == i;
            assert(now[k] == i);
        }
        if now.contains(i) {
            let k = choose|k: int| 0 <= k < now.len() && now[k] == i;
            if k < before.len() {
                assert(before[k] == i);
            }
        }
        if i == n - 1 && flags[i] {
            assert(now.last() == i);
        }
    }
}

/// A range at an offset is the first that holds it, its start included and its end not.
pub proof fn law_range_at(t: Seq<u8>, ranges: Seq<TextRange>, offset: int, from: int)
    requires
        0 <= from <= ranges.len(),
    ensures
        match document_links::range_at(t, ranges, offset, from) {
            Some(i) => from <= i < ranges.len() && position::position_offset(t, ranges[i].start)
                <= offset < position::position_offset(t, ranges[i].end) && forall|j: int|
                from <= j < i ==> !(position::position_offset(t, (#[trigger] ranges[j]).start)
                    <= offset < position::position_offset(t, ranges[j].end)),
            None => forall|j: int|
                from <= j < ranges.len() ==> !(position::position_offset(
                    t,
                    (#[trigger] ranges[j]).start,
                ) <= offset < position::position_offset(t, ranges[j].end)),
        },
    decreases ranges.len() - from,
{
    if from < ranges.len() && !(position::position_offset(t, ranges[from].start) <= offset
        < position::position_offset(t, ranges[from].end)) {
        law_range_at(t, ranges, offset, from + 1);
    }
}

/// Linked ranges all read the same, the one with the cursor comes first, and there are
/// as many as the server gave.
pub proof fn law_linked_ranges(
    t: Seq<u8>,
    cursor: int,
    ranges: Seq<TextRange>,
    spans: Seq<(int, int)>,
    i: int,
)
    requires
        linked_editing::linked_spans(t, cursor, ranges) == Some(spans),
        0 <= i < spans.len(),
    ensures
        spans.len() == ranges.len() >= 2,
        spans[0].0 <= cursor <= spans[0].1,
        spans[i].0 < spans[i].1,
        t.subrange(spans[i].0, spans[i].1) == t.subrange(spans[0].0, spans[0].1),
{
    let n = ranges.len() as int;
    let all = linked_editing::exact_spans(t, ranges, n)->Some_0;
    lemma_exact(t, ranges, n);
    lemma_span_at(all, cursor, 0);
    let index = linked_editing::span_at(all, cursor, 0)->Some_0;
    assert(spans == linked_editing::brought_first(all, index));
    assert(spans[0] == all[index]);
    let k = if i == index {
        0
    } else if i == 0 {
        index
    } else {
        i
    };
    assert(spans[i] == all[k]);
    assert(t.subrange(all[k].0, all[k].1) == t.subrange(all[0].0, all[0].1));
    assert(t.subrange(all[index].0, all[index].1) == t.subrange(all[0].0, all[0].1));
}

proof fn lemma_exact(t: Seq<u8>, ranges: Seq<TextRange>, n: int)
    requires
        0 <= n <= ranges.len(),
        linked_editing::exact_spans(t, ranges, n) is Some,
    ensures
        ({
            let spans = linked_editing::exact_spans(t, ranges, n)->Some_0;
            &&& spans.len() == n
            &&& forall|i: int| 0 <= i < n ==> (#[trigger] spans[i]).0 < spans[i].1
        }),
    decreases n,
{
    if n > 0 {
        lemma_exact(t, ranges, n - 1);
        let before = linked_editing::exact_spans(t, ranges, n - 1)->Some_0;
        let spans = linked_editing::exact_spans(t, ranges, n)->Some_0;
        assert forall|i: int| 0 <= i < n implies (#[trigger] spans[i]).0 < spans[i].1 by {
            if i < n - 1 {
                assert(spans[i] == before[i]);
            }
        }
    }
}

proof fn lemma_span_at(spans: Seq<(int, int)>, cursor: int, from: int)
    requires
        0 <= from <= spans.len(),
    ensures
        match linked_editing::span_at(spans, cursor, from) {
            Some(i) => from <= i < spans.len() && spans[i].0 <= cursor <= spans[i].1,
            None => forall|j: int|
                from <= j < spans.len() ==> !((#[trigger] spans[j]).0 <= cursor <= spans[j].1),
        },
    decreases spans.len() - from,
{
    if from < spans.len() && !(spans[from].0 <= cursor <= spans[from].1) {
        lemma_span_at(spans, cursor, from + 1);
    }
}

/// A linked range grows with an edit inside it; another stays before the edit, moves
/// with the text behind it, and is lost where the edit reaches into it.
pub proof fn law_linked_range_after_edit(span: (int, int), edit: (int, int), inserted: int)
    requires
        0 <= span.0 < span.1,
        0 <= edit.0 <= edit.1,
        0 <= inserted,
        span.1 + inserted <= usize::MAX,
    ensures
        ({
            let d = inserted - (edit.1 - edit.0);
            let own = linked_editing::followed_span(span, true, edit, inserted);
            let other = linked_editing::followed_span(span, false, edit, inserted);
            &&& span.0 <= edit.0 && edit.1 <= span.1 ==> own == Some((span.0, span.1 + d))
            &&& !(span.0 <= edit.0 && edit.1 <= span.1) ==> own is None
            &&& span.1 <= edit.0 ==> other == Some(span)
            &&& edit.1 <= span.0 && !(span.1 <= edit.0) ==> other == Some(
                (span.0 + d, span.1 + d),
            )
            &&& edit.0 < span.1 && span.0 < edit.1 ==> other is None
        }),
{
}

} // verus!
