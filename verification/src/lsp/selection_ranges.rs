//! Expanding the selection along nested ranges of the syntax.

use crate::cursor::{EditorSelection, Position, Selection};
use crate::lsp::position::{exact_offset, offset_position, TextRange};
use crate::lsp::Lsp;
use crate::multi_cursor as cursors;
use crate::rope;
use crate::snippet_state;
use crate::state::InputState;
use crate::text::Document;
use crate::text;
use ropey::Rope;
use std::ops::Range;
use vstd::prelude::*;

verus! {

/// The offsets of a range whose ends the text has, in order.
pub open spec fn exact_range(t: Seq<u8>, range: TextRange) -> Option<(int, int)> {
    match (exact_offset(t, range.start), exact_offset(t, range.end)) {
        (Some(start), Some(end)) => if start <= end {
            Some((start, end))
        } else {
            None
        },
        _ => None,
    }
}

/// The offsets of the first `n` of the ranges, from the innermost outwards,
/// without those that the text does not have and without repeats.
pub open spec fn nested(t: Seq<u8>, chain: Seq<TextRange>, n: int) -> Seq<(int, int)>
    decreases n,
{
    if n <= 0 {
        Seq::empty()
    } else {
        let before = nested(t, chain, n - 1);
        match exact_range(t, chain[n - 1]) {
            Some(range) => if before.len() > 0 && before.last() == range {
                before
            } else {
                before.push(range)
            },
            None => before,
        }
    }
}

/// `outer` holds `inner` and more.
pub open spec fn strictly_holds(outer: (int, int), inner: (int, int)) -> bool {
    outer.0 <= inner.0 && inner.1 <= outer.1 && outer != inner
}

/// The first of the shortest among the first `n` ranges that hold `current` and
/// more.
pub open spec fn shortest_holding(
    ranges: Seq<(int, int)>,
    current: (int, int),
    n: int,
) -> Option<(int, int)>
    decreases n,
{
    if n <= 0 {
        None
    } else {
        let before = shortest_holding(ranges, current, n - 1);
        let range = ranges[n - 1];
        if strictly_holds(range, current) && (before is None || range.1 - range.0 < (
        before->Some_0).1 - (before->Some_0).0) {
            Some(range)
        } else {
            before
        }
    }
}

/// The range that the selection expands to.
pub open spec fn expanded(t: Seq<u8>, chain: Seq<TextRange>, current: (int, int)) -> Option<
    (int, int),
> {
    let ranges = nested(t, chain, chain.len() as int);
    shortest_holding(ranges, current, ranges.len() as int)
}

/// The offsets of the ranges, from the innermost outwards.
pub fn nested_selection_ranges(document: &Document, chain: &Vec<TextRange>) -> (ranges: Vec<
    Range<usize>,
>)
    requires
        document.wf(),
    ensures
        text::ranges_view(ranges@) == nested(document.bytes(), chain@, chain@.len() as int),
        forall|i: int|
            #![trigger ranges@[i]]
            0 <= i < ranges@.len() ==> cursors::is_on_boundaries(
                document.bytes(),
                crate::cursor::spec_between(ranges@[i].start, ranges@[i].end, false),
            ) && ranges@[i].start <= ranges@[i].end,
{
    let ghost t = document.bytes();
    let mut ranges: Vec<Range<usize>> = Vec::new();
    let mut i: usize = 0;
    while i < chain.len()
        invariant
            document.wf(),
            t == document.bytes(),
            i <= chain@.len(),
            text::ranges_view(ranges@) =~= nested(t, chain@, i as int),
            forall|k: int|
                #![trigger ranges@[k]]
                0 <= k < ranges@.len() ==> cursors::is_on_boundaries(
                    t,
                    crate::cursor::spec_between(ranges@[k].start, ranges@[k].end, false),
                ) && ranges@[k].start <= ranges@[k].end,
        decreases chain.len() - i,
    {
        if let Some(start) = document.exact_offset(&chain[i].start) {
            if let Some(end) = document.exact_offset(&chain[i].end) {
                if start <= end {
                    let repeated = if ranges.len() > 0 {
                        let last = &ranges[ranges.len() - 1];
                        assert(text::ranges_view(ranges@).last() == (last.start as int, last.end as int));
                        last.start == start && last.end == end
                    } else {
                        false
                    };
                    if !repeated {
                        ranges.push(Range { start, end });
                    }
                }
            }
        }
        i = i + 1;
    }
    ranges
}

/// The shortest range that holds `current` and more.
pub fn next_expanded_range(document: &Document, chain: &Vec<TextRange>, current: &Range<usize>) -> (next:
    Option<Range<usize>>)
    requires
        document.wf(),
    ensures
        match next {
            Some(next) => expanded(
                document.bytes(),
                chain@,
                (current.start as int, current.end as int),
            ) == Some((next.start as int, next.end as int)) && cursors::is_on_boundaries(
                document.bytes(),
                crate::cursor::spec_between(next.start, next.end, false),
            ) && next.start <= next.end,
            None => expanded(
                document.bytes(),
                chain@,
                (current.start as int, current.end as int),
            ) is None,
        },
{
    let ranges = nested_selection_ranges(document, chain);
    let ghost view = text::ranges_view(ranges@);
    let ghost inner = (current.start as int, current.end as int);
    let mut best: Option<usize> = None;
    let mut i: usize = 0;
    while i < ranges.len()
        invariant
            i <= ranges@.len(),
            view == text::ranges_view(ranges@),
            inner == (current.start as int, current.end as int),
            forall|k: int|
                #![trigger ranges@[k]]
                0 <= k < ranges@.len() ==> ranges@[k].start <= ranges@[k].end,
            match best {
                Some(b) => b < ranges@.len() && shortest_holding(view, inner, i as int) == Some(
                    view[b as int],
                ),
                None => shortest_holding(view, inner, i as int) is None,
            },
        decreases ranges.len() - i,
    {
        let range = &ranges[i];
        assert(view[i as int] == (range.start as int, range.end as int));
        if range.start <= current.start && current.end <= range.end && (range.start
            != current.start || range.end != current.end) {
            let shorter = match best {
                Some(b) => range.end - range.start < ranges[b].end - ranges[b].start,
                None => true,
            };
            if shorter {
                best = Some(i);
            }
        }
        i = i + 1;
    }
    match best {
        Some(b) => Some(Range { start: ranges[b].start, end: ranges[b].end }),
        None => None,
    }
}

/// The selection expands to a range that holds it and more, and no range that
/// does is shorter.
pub proof fn law_expanded_is_shortest(ranges: Seq<(int, int)>, current: (int, int), n: int)
    requires
        0 <= n <= ranges.len(),
    ensures
        match shortest_holding(ranges, current, n) {
            Some(found) => {
                &&& strictly_holds(found, current)
                &&& ranges.contains(found)
                &&& forall|i: int|
                    #![trigger ranges[i]]
                    0 <= i < n && strictly_holds(ranges[i], current) ==> found.1 - found.0
                        <= ranges[i].1 - ranges[i].0
            },
            None => forall|i: int|
                #![trigger ranges[i]]
                0 <= i < n ==> !strictly_holds(ranges[i], current),
        },
    decreases n,
{
    if n > 0 {
        law_expanded_is_shortest(ranges, current, n - 1);
        assert(ranges.contains(ranges[n - 1]));
    }
}

/// The selection grew to the range, and what it was is remembered.
pub open spec fn is_expansion(before: InputState, after: InputState, range: (int, int)) -> bool {
    &&& 0 <= range.0 <= range.1 <= usize::MAX
    &&& after == (InputState {
        selected_range: Selection { start: range.0 as usize, end: range.1 as usize },
        selection_reversed: false,
        snippet_session: snippet_state::session_within(
            before.snippet_session,
            after.all_selections(),
        ),
        lsp: Lsp {
            selection_range_history: after.lsp.selection_range_history,
            selection_range_last: Some(after.selected_range),
            ..before.lsp
        },
        ..before
    })
    &&& after.lsp.selection_range_history@ == before.lsp.selection_range_history@.push(
        before.selected_range,
    )
}

/// The selection is the one remembered last, if the last step was an expansion.
pub open spec fn is_shrinking(before: InputState, after: InputState, changed: bool) -> bool {
    let history = before.lsp.selection_range_history@;
    if before.lsp.selection_range_last != Some(before.selected_range) {
        &&& !changed
        &&& after == (InputState {
            lsp: Lsp {
                selection_range_history: after.lsp.selection_range_history,
                selection_range_last: None,
                ..before.lsp
            },
            ..before
        })
        &&& after.lsp.selection_range_history@.len() == 0
    } else if history.len() == 0 {
        !changed && after == before
    } else {
        &&& changed
        &&& after == (InputState {
            selected_range: history.last(),
            selection_reversed: false,
            snippet_session: snippet_state::session_within(
                before.snippet_session,
                after.all_selections(),
            ),
            lsp: Lsp {
                selection_range_history: after.lsp.selection_range_history,
                selection_range_last: if history.len() == 1 {
                    None
                } else {
                    Some(history.last())
                },
                ..before.lsp
            },
            ..before
        })
        &&& after.lsp.selection_range_history@ == history.drop_last()
    }
}

/// Shrinking undoes an expansion.
pub proof fn law_shrinking_undoes_expansion(
    before: InputState,
    expanded: InputState,
    after: InputState,
    range: (int, int),
    changed: bool,
)
    requires
        is_expansion(before, expanded, range),
        is_shrinking(expanded, after, changed),
    ensures
        changed,
        after.selected_range == before.selected_range,
        after.lsp.selection_range_history@ == before.lsp.selection_range_history@,
        after.bytes() == before.bytes(),
{
    let history = before.lsp.selection_range_history@;
    assert(history.push(before.selected_range).drop_last() =~= history);
}

/// The remembered selections end on boundaries of the text.
pub open spec fn fits_history(state: InputState) -> bool {
    forall|i: int|
        #![trigger state.lsp.selection_range_history@[i]]
        0 <= i < state.lsp.selection_range_history@.len() ==> cursors::is_on_boundaries(
            state.bytes(),
            EditorSelection { range: state.lsp.selection_range_history@[i], reversed: false },
        )
}

/// The memory of expansions, as far as it is of this selection.
pub open spec fn kept_history(lsp: Lsp, selection: Selection) -> Seq<Selection> {
    if lsp.selection_range_last == Some(selection) {
        lsp.selection_range_history@
    } else {
        Seq::empty()
    }
}

impl InputState {
    /// Asks for the ranges around the cursor. Expansions of another selection
    /// are forgotten.
    pub fn expand_selection(&mut self, has_provider: bool) -> (position: Option<Position>)
        ensures
            !has_provider ==> position is None && *final(self) == *old(self),
            has_provider ==> {
                &&& position == Some(
                    offset_position(old(self).bytes(), old(self).primary().spec_head() as int),
                )
                &&& *final(self) == (InputState {
                    lsp: Lsp {
                        selection_range_history: final(self).lsp.selection_range_history,
                        selection_range_last: final(self).lsp.selection_range_last,
                        ..old(self).lsp
                    },
                    ..*old(self)
                })
                &&& final(self).lsp.selection_range_history@ == kept_history(
                    old(self).lsp,
                    old(self).selected_range,
                )
                &&& final(self).lsp.selection_range_last == if old(self).lsp.selection_range_last
                    == Some(old(self).selected_range) {
                    old(self).lsp.selection_range_last
                } else {
                    None
                }
            },
    {
        if !has_provider {
            return None;
        }
        if !self.was_expanded() {
            self.lsp.selection_range_history = Vec::new();
            self.lsp.selection_range_last = None;
        }
        Some(self.document().offset_to_position(self.cursor()))
    }

    fn was_expanded(&self) -> (expanded: bool)
        ensures
            expanded == (self.lsp.selection_range_last == Some(self.selected_range)),
    {
        match self.lsp.selection_range_last {
            Some(last) => last == self.selected_range,
            None => false,
        }
    }

    /// The range that a reply makes the selection, while the text and the
    /// selection are those that it was asked for.
    pub open spec fn expansion(
        &self,
        requested: Rope,
        current: Selection,
        chain: Option<Vec<TextRange>>,
    ) -> Option<(int, int)> {
        if self.bytes() == rope::rope_bytes(requested) && self.selected_range == current
            && chain is Some {
            expanded(
                self.bytes(),
                (chain->Some_0)@,
                (current.start as int, current.end as int),
            )
        } else {
            None
        }
    }

    /// Takes the ranges around the cursor, the first of the reply.
    pub fn receive_selection_ranges(
        &mut self,
        requested: &Rope,
        current: Selection,
        chain: Option<Vec<TextRange>>,
    ) -> (changed: bool)
        requires
            old(self).wf(),
        ensures
            final(self).wf(),
            fits_history(*old(self)) ==> fits_history(*final(self)),
            match old(self).expansion(*requested, current, chain) {
                Some(range) => changed && is_expansion(*old(self), *final(self), range),
                None => !changed && *final(self) == *old(self),
            },
    {
        if !self.has_text(requested) || self.selected_range != current {
            return false;
        }
        let document = self.document();
        let next = match &chain {
            Some(chain) => next_expanded_range(
                &document,
                chain,
                &Range { start: current.start, end: current.end },
            ),
            None => None,
        };
        match next {
            Some(next) => {
                self.lsp.selection_range_history.push(self.selected_range);
                self.selected_range = Selection::new(next.start, next.end);
                self.selection_reversed = false;
                self.lsp.selection_range_last = Some(self.selected_range);
                proof {
                    assert forall|i: int|
                        #![trigger self.all_selections()[i]]
                        0 <= i
                            < self.all_selections().len() implies cursors::is_on_boundaries(
                        self.bytes(),
                        self.all_selections()[i],
                    ) by {
                        if i > 0 {
                            assert(self.all_selections()[i] == old(self).all_selections()[i]);
                        }
                    }
                }
                let ghost grown = *self;
                self.cancel_snippet_session_if_selection_outside();
                proof {
                    assert(self.all_selections() =~= grown.all_selections());
                    assert(old(self).all_selections()[0] == old(self).primary());
                    let history = old(self).lsp.selection_range_history@;
                    assert forall|i: int|
                        #![trigger self.lsp.selection_range_history@[i]]
                        fits_history(*old(self)) && 0 <= i
                            < self.lsp.selection_range_history@.len() implies cursors::is_on_boundaries(
                        self.bytes(),
                        EditorSelection {
                            range: self.lsp.selection_range_history@[i],
                            reversed: false,
                        },
                    ) by {
                        if i < history.len() {
                            assert(self.lsp.selection_range_history@[i] == history[i]);
                        }
                    }
                }
                true
            },
            None => false,
        }
    }

    /// Goes back to the selection before the last expansion.
    pub fn shrink_selection(&mut self) -> (changed: bool)
        requires
            old(self).wf(),
        ensures
            is_shrinking(*old(self), *final(self), changed),
            fits_history(*old(self)) ==> final(self).wf() && fits_history(*final(self)),
    {
        if !self.was_expanded() {
            self.lsp.selection_range_history = Vec::new();
            self.lsp.selection_range_last = None;
            proof {
                assert(self.all_selections() =~= old(self).all_selections());
            }
            return false;
        }
        if self.lsp.selection_range_history.len() == 0 {
            return false;
        }
        let previous = self.lsp.selection_range_history.pop().unwrap();
        self.selected_range = previous;
        self.selection_reversed = false;
        self.lsp.selection_range_last = if self.lsp.selection_range_history.len() == 0 {
            None
        } else {
            Some(previous)
        };
        proof {
            let history = old(self).lsp.selection_range_history@;
            assert(history.last() == previous);
            if fits_history(*old(self)) {
                assert(history[history.len() - 1] == previous);
                assert forall|i: int|
                    #![trigger self.all_selections()[i]]
                    0 <= i < self.all_selections().len() implies cursors::is_on_boundaries(
                    self.bytes(),
                    self.all_selections()[i],
                ) by {
                    if i > 0 {
                        assert(self.all_selections()[i] == old(self).all_selections()[i]);
                    }
                }
                assert forall|i: int|
                    #![trigger self.lsp.selection_range_history@[i]]
                    0 <= i
                        < self.lsp.selection_range_history@.len() implies cursors::is_on_boundaries(
                    self.bytes(),
                    EditorSelection {
                        range: self.lsp.selection_range_history@[i],
                        reversed: false,
                    },
                ) by {
                    assert(self.lsp.selection_range_history@[i] == history[i]);
                }
            }
        }
        let ghost shrunk = *self;
        self.cancel_snippet_session_if_selection_outside();
        assert(self.all_selections() =~= shrunk.all_selections());
        true
    }
}

} // verus!
