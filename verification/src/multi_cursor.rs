//! Sets of selections.

use crate::cursor;
use crate::cursor::{EditorSelection, Selection};
use crate::order;
use crate::text;
use crate::text::Document;
use vstd::prelude::*;

verus! {

pub const MAX_EDITOR_SELECTIONS: usize = 256;

/// The selection widened to scalar boundaries of the text.
pub open spec fn clipped(t: Seq<u8>, selection: EditorSelection) -> EditorSelection {
    let start = text::floor_boundary(t, selection.range.start as int);
    let ceil = text::ceil_boundary(t, selection.range.end as int);
    let end = if ceil < start {
        start
    } else {
        ceil
    };
    EditorSelection {
        range: Selection { start: start as usize, end: end as usize },
        reversed: selection.reversed && start != end,
    }
}

pub fn clip_selection(document: &Document, selection: EditorSelection) -> (result: EditorSelection)
    requires
        document.wf(),
    ensures
        result == clipped(document.bytes(), selection),
{
    let start = document.clip_left(selection.range.start);
    let ceil = document.clip_right(selection.range.end);
    let end = if ceil < start {
        start
    } else {
        ceil
    };
    EditorSelection {
        range: Selection { start, end },
        reversed: selection.reversed && start != end,
    }
}

/// Whether `right`, which starts no earlier than `left`, has to be merged with
/// it: two ranges merge when they overlap, a caret also when it touches.
pub open spec fn should_merge(left: EditorSelection, right: EditorSelection) -> bool {
    if left.range.start == left.range.end || right.range.start == right.range.end {
        right.range.start <= left.range.end
    } else {
        right.range.start < left.range.end
    }
}

fn selections_should_merge(left: EditorSelection, right: EditorSelection) -> (merge: bool)
    ensures
        merge == should_merge(left, right),
{
    if left.is_empty() || right.is_empty() {
        right.range.start <= left.range.end
    } else {
        right.range.start < left.range.end
    }
}

/// The merge of two numbered selections: it covers both, and takes its number
/// and direction from the one with the lower number.
pub open spec fn merged(
    left: (usize, EditorSelection),
    right: (usize, EditorSelection),
) -> (usize, EditorSelection) {
    let winner = if left.0 == 0 || (right.0 != 0 && left.0 < right.0) {
        left
    } else {
        right
    };
    let range = Selection {
        start: if left.1.range.start <= right.1.range.start {
            left.1.range.start
        } else {
            right.1.range.start
        },
        end: if left.1.range.end >= right.1.range.end {
            left.1.range.end
        } else {
            right.1.range.end
        },
    };
    (winner.0, EditorSelection { range, reversed: winner.1.reversed && range.start != range.end })
}

fn merge_selections(
    left: (usize, EditorSelection),
    right: (usize, EditorSelection),
) -> (result: (usize, EditorSelection))
    ensures
        result == merged(left, right),
{
    let winner = if left.0 == 0 {
        left
    } else if right.0 == 0 {
        right
    } else if left.0 < right.0 {
        left
    } else {
        right
    };
    let start: usize = if left.1.range.start <= right.1.range.start {
        left.1.range.start
    } else {
        right.1.range.start
    };
    let end: usize = if left.1.range.end >= right.1.range.end {
        left.1.range.end
    } else {
        right.1.range.end
    };
    (
        winner.0,
        EditorSelection {
            range: Selection::new(start, end),
            reversed: winner.1.reversed && start != end,
        },
    )
}

/// `stack` with its last two items merged for as long as they have to be.
pub open spec fn settled(stack: Seq<(usize, EditorSelection)>) -> Seq<(usize, EditorSelection)>
    decreases stack.len(),
{
    if stack.len() < 2 {
        stack
    } else {
        let left = stack[stack.len() - 2];
        let right = stack[stack.len() - 1];
        if should_merge(left.1, right.1) {
            settled(stack.subrange(0, stack.len() - 2).push(merged(left, right)))
        } else {
            stack
        }
    }
}

/// The first `n` items with neighbours merged where they have to be.
pub open spec fn merged_all(items: Seq<(usize, EditorSelection)>, n: int) -> Seq<
    (usize, EditorSelection),
>
    decreases n,
{
    if n <= 0 {
        Seq::empty()
    } else {
        settled(merged_all(items, n - 1).push(items[n - 1]))
    }
}

/// By where a selection starts, then by where it ends; of two with the same
/// range, the one whose caret is at its start comes first.
pub open spec fn selection_key(selection: EditorSelection) -> (int, int) {
    (
        selection.range.start as int,
        2 * selection.range.end + if selection.reversed {
            0int
        } else {
            1int
        },
    )
}

pub open spec fn selection_keys(selections: Seq<EditorSelection>) -> Seq<(int, int)> {
    Seq::new(selections.len(), |i: int| selection_key(selections[i]))
}

/// Each selection with its index, in the order of their keys.
pub open spec fn numbered(selections: Seq<EditorSelection>) -> Seq<(usize, EditorSelection)> {
    let order = order::sorted_order(selection_keys(selections), selections.len() as int);
    Seq::new(selections.len(), |i: int| (order[i] as usize, selections[order[i]]))
}

/// Index of the first item from `from` on whose number is 0, else 0.
pub open spec fn primary_index(items: Seq<(usize, EditorSelection)>, from: int) -> int
    decreases items.len() - from,
{
    if from < 0 || from >= items.len() {
        0
    } else if items[from].0 == 0 {
        from
    } else {
        primary_index(items, from + 1)
    }
}

/// The first selections, at most `MAX_EDITOR_SELECTIONS`, widened to boundaries.
pub open spec fn admitted(t: Seq<u8>, selections: Seq<EditorSelection>) -> Seq<EditorSelection> {
    let n = if selections.len() < MAX_EDITOR_SELECTIONS {
        selections.len()
    } else {
        MAX_EDITOR_SELECTIONS as nat
    };
    Seq::new(n, |i: int| clipped(t, selections[i]))
}

/// The selections after merging, the one that descends from the first in front
/// of the others.
pub open spec fn primary_first(items: Seq<(usize, EditorSelection)>) -> Seq<EditorSelection> {
    let at = primary_index(items, 0);
    let rest = items.remove(at);
    seq![items[at].1] + Seq::new(rest.len(), |i: int| rest[i].1)
}

/// What a list of selections becomes: clipped to the text, overlaps merged, at
/// most `MAX_EDITOR_SELECTIONS`, the first one still in front and the others
/// in the order of the text. An empty list becomes `fallback`.
pub open spec fn normalized(
    t: Seq<u8>,
    selections: Seq<EditorSelection>,
    fallback: EditorSelection,
) -> Seq<EditorSelection> {
    if selections.len() == 0 {
        seq![fallback]
    } else {
        let items = numbered(admitted(t, selections));
        primary_first(merged_all(items, items.len() as int))
    }
}

/// No two of the items have to be merged, and they lie in the order of the text.
pub open spec fn is_tidy(items: Seq<(usize, EditorSelection)>) -> bool {
    &&& forall|i: int| #![trigger items[i]] 0 <= i < items.len() ==> items[i].1.wf()
    &&& forall|i: int, j: int|
        #![trigger items[i], items[j]]
        0 <= i < j < items.len() ==> items[i].1.range.start <= items[j].1.range.start
            && !should_merge(items[i].1, items[j].1)
}

/// The range of the selection ends on boundaries of the text.
pub open spec fn is_on_boundaries(t: Seq<u8>, selection: EditorSelection) -> bool {
    &&& selection.range.start <= selection.range.end <= t.len()
    &&& text::is_boundary(t, selection.range.start as int)
    &&& text::is_boundary(t, selection.range.end as int)
}

pub open spec fn covers(outer: EditorSelection, inner: EditorSelection) -> bool {
    outer.range.start <= inner.range.start && inner.range.end <= outer.range.end
}

/// Some item has number 0.
pub open spec fn holds_primary(items: Seq<(usize, EditorSelection)>) -> bool {
    exists|i: int| #![trigger items[i]] 0 <= i < items.len() && items[i].0 == 0
}

/// Every item with number 0 covers `first`.
pub open spec fn primary_covers(
    items: Seq<(usize, EditorSelection)>,
    first: EditorSelection,
) -> bool {
    forall|i: int|
        #![trigger items[i]]
        0 <= i < items.len() && items[i].0 == 0 ==> covers(items[i].1, first)
}

proof fn lemma_clipped(t: Seq<u8>, selection: EditorSelection)
    requires
        t.len() <= usize::MAX,
    ensures
        is_on_boundaries(t, clipped(t, selection)),
{
    text::lemma_floor_boundary(t, selection.range.start as int);
    text::lemma_ceil_boundary(t, selection.range.end as int);
}

/// Merging one more item keeps the items tidy.
proof fn lemma_settled(
    t: Seq<u8>,
    stack: Seq<(usize, EditorSelection)>,
    item: (usize, EditorSelection),
    first: EditorSelection,
)
    requires
        is_tidy(stack),
        forall|i: int| #![trigger stack[i]] 0 <= i < stack.len() ==> is_on_boundaries(t, stack[i].1),
        is_on_boundaries(t, item.1),
        forall|i: int|
            #![trigger stack[i]]
            0 <= i < stack.len() ==> stack[i].1.range.start <= item.1.range.start,
        primary_covers(stack, first),
        item.0 == 0 ==> covers(item.1, first),
    ensures
        is_tidy(settled(stack.push(item))),
        0 < settled(stack.push(item)).len() <= stack.len() + 1,
        forall|i: int|
            #![trigger settled(stack.push(item))[i]]
            0 <= i < settled(stack.push(item)).len() ==> is_on_boundaries(
                t,
                settled(stack.push(item))[i].1,
            ) && settled(stack.push(item))[i].1.range.start <= item.1.range.start,
        primary_covers(settled(stack.push(item)), first),
        holds_primary(stack) || item.0 == 0 ==> holds_primary(settled(stack.push(item))),
{
    let pushed = stack.push(item);
    let n = stack.len() as int;
    let result = settled(pushed);
    if n > 0 && should_merge(stack[n - 1].1, item.1) {
        let top = stack[n - 1];
        let m = merged(top, item);
        let shorter = pushed.subrange(0, n - 1).push(m);
        assert(pushed[n - 1] == top);
        assert(pushed[n] == item);
        assert(result == settled(shorter));
        assert forall|i: int| 0 <= i < n - 1 implies !should_merge((#[trigger] stack[i]).1, m.1)
            && stack[i].1.range.start <= m.1.range.start by {
            assert(!should_merge(stack[i].1, stack[n - 1].1));
        }
        if n >= 2 {
            assert(shorter[n - 2] == stack[n - 2]);
            assert(shorter[n - 1] == m);
            assert(!should_merge(stack[n - 2].1, m.1));
        }
        assert(result == shorter);
        assert forall|i: int| 0 <= i < n - 1 implies #[trigger] result[i] == stack[i] by {}
        assert(result[n - 1] == m);
        if holds_primary(stack) || item.0 == 0 {
            if holds_primary(stack) {
                let i = choose|i: int| #![trigger stack[i]] 0 <= i < stack.len() && stack[i].0 == 0;
                if i < n - 1 {
                    assert(result[i].0 == 0);
                } else {
                    assert(result[n - 1].0 == 0);
                }
            } else {
                assert(result[n - 1].0 == 0);
            }
        }
    } else {
        assert(result == pushed);
        if n > 0 {
            assert forall|i: int| 0 <= i < n implies !should_merge(
                (#[trigger] stack[i]).1,
                item.1,
            ) by {
                if i < n - 1 {
                    assert(!should_merge(stack[i].1, stack[n - 1].1));
                }
            }
        }
        assert forall|i: int| 0 <= i < n implies #[trigger] result[i] == stack[i] by {}
        assert(result[n] == item);
        if holds_primary(stack) {
            let i = choose|i: int| #![trigger stack[i]] 0 <= i < stack.len() && stack[i].0 == 0;
            assert(result[i].0 == 0);
        }
    }
}

proof fn lemma_merged_all(
    t: Seq<u8>,
    items: Seq<(usize, EditorSelection)>,
    n: int,
    first: EditorSelection,
)
    requires
        0 <= n <= items.len(),
        forall|i: int| #![trigger items[i]] 0 <= i < items.len() ==> is_on_boundaries(t, items[i].1),
        forall|i: int, j: int|
            #![trigger items[i], items[j]]
            0 <= i < j < items.len() ==> items[i].1.range.start <= items[j].1.range.start,
        primary_covers(items, first),
    ensures
        is_tidy(merged_all(items, n)),
        merged_all(items, n).len() <= n,
        n > 0 ==> merged_all(items, n).len() > 0,
        forall|i: int|
            #![trigger merged_all(items, n)[i]]
            0 <= i < merged_all(items, n).len() ==> is_on_boundaries(t, merged_all(items, n)[i].1)
                && merged_all(items, n)[i].1.range.start <= items[n - 1].1.range.start,
        primary_covers(merged_all(items, n), first),
        forall|k: int|
            #![trigger items[k]]
            0 <= k < n && items[k].0 == 0 ==> holds_primary(merged_all(items, n)),
    decreases n,
{
    if n > 0 {
        lemma_merged_all(t, items, n - 1, first);
        let before = merged_all(items, n - 1);
        assert forall|i: int| #![trigger before[i]] 0 <= i < before.len() implies before[i].1.range.start
            <= items[n - 1].1.range.start by {
            assert(items[n - 2].1.range.start <= items[n - 1].1.range.start);
        }
        lemma_settled(t, before, items[n - 1], first);
    }
}

proof fn lemma_primary_index(items: Seq<(usize, EditorSelection)>, from: int)
    requires
        0 <= from <= items.len(),
        items.len() > 0,
    ensures
        0 <= primary_index(items, from) < items.len(),
        (exists|i: int| #![trigger items[i]] from <= i < items.len() && items[i].0 == 0)
            ==> items[primary_index(items, from)].0 == 0,
    decreases items.len() - from,
{
    if from < items.len() && items[from].0 != 0 {
        lemma_primary_index(items, from + 1);
        if exists|i: int| #![trigger items[i]] from <= i < items.len() && items[i].0 == 0 {
            let i = choose|i: int| #![trigger items[i]] from <= i < items.len() && items[i].0 == 0;
            assert(from + 1 <= i);
        }
    }
}

/// What normalizing gives: between one and `MAX_EDITOR_SELECTIONS` selections,
/// each on boundaries of the text, the ones behind the first in the order of
/// the text, and no two that overlap, or touch where one is a caret.
pub open spec fn is_normal(t: Seq<u8>, selections: Seq<EditorSelection>) -> bool {
    &&& 1 <= selections.len() <= MAX_EDITOR_SELECTIONS
    &&& forall|i: int|
        #![trigger selections[i]]
        0 <= i < selections.len() ==> is_on_boundaries(t, selections[i])
    &&& forall|i: int, j: int|
        #![trigger selections[i], selections[j]]
        1 <= i < j < selections.len() ==> selections[i].range.start <= selections[j].range.start
    &&& forall|i: int, j: int|
        #![trigger selections[i], selections[j]]
        0 <= i < selections.len() && 0 <= j < selections.len() && i != j ==> are_apart(
            selections[i],
            selections[j],
        )
}

/// Neither selection reaches into the other, nor touches it where one is a caret.
pub open spec fn are_apart(a: EditorSelection, b: EditorSelection) -> bool {
    if a.range.start <= b.range.start && (a.range.start < b.range.start || a.range.end
        <= b.range.start) {
        !should_merge(a, b)
    } else {
        !should_merge(b, a)
    }
}

proof fn lemma_numbered(t: Seq<u8>, selections: Seq<EditorSelection>)
    requires
        0 < selections.len() <= MAX_EDITOR_SELECTIONS,
        forall|i: int|
            #![trigger selections[i]]
            0 <= i < selections.len() ==> is_on_boundaries(t, selections[i]),
    ensures
        numbered(selections).len() == selections.len(),
        forall|i: int|
            #![trigger numbered(selections)[i]]
            0 <= i < selections.len() ==> is_on_boundaries(t, numbered(selections)[i].1),
        forall|i: int, j: int|
            #![trigger numbered(selections)[i], numbered(selections)[j]]
            0 <= i < j < selections.len() ==> numbered(selections)[i].1.range.start <= numbered(
                selections,
            )[j].1.range.start,
        holds_primary(numbered(selections)),
        primary_covers(numbered(selections), selections[0]),
{
    let keys = selection_keys(selections);
    let order = order::sorted_order(keys, selections.len() as int);
    order::lemma_sorted_order(keys, selections.len() as int);
    let items = numbered(selections);
    assert(order.contains(0));
    let at = choose|i: int| 0 <= i < order.len() && order[i] == 0;
    assert(items[at].0 == 0 && items[at].1 == selections[0]);
    assert forall|i: int| #![trigger items[i]] 0 <= i < selections.len() implies is_on_boundaries(
        t,
        items[i].1,
    ) by {
        assert(0 <= order[i] < selections.len());
    }
    assert forall|i: int, j: int| #![trigger items[i], items[j]] 0 <= i < j < selections.len() implies items[i].1.range.start
        <= items[j].1.range.start by {
        assert(order::key_le(keys[order[i]], keys[order[j]]));
    }
}

/// Normalizing keeps the first selection in front, widened at most by what it
/// was merged with, and leaves selections that are in normal form: on
/// boundaries, apart from each other and in the order of the text.
pub proof fn law_normalized_selections(
    t: Seq<u8>,
    selections: Seq<EditorSelection>,
    fallback: EditorSelection,
)
    requires
        t.len() <= usize::MAX,
        selections.len() == 0 ==> is_on_boundaries(t, fallback),
    ensures
        is_normal(t, normalized(t, selections, fallback)),
        selections.len() > 0 ==> covers(
            normalized(t, selections, fallback)[0],
            clipped(t, selections[0]),
        ),
{
    if selections.len() > 0 {
        let base = admitted(t, selections);
        assert forall|i: int| #![trigger base[i]] 0 <= i < base.len() implies is_on_boundaries(
            t,
            base[i],
        ) by {
            lemma_clipped(t, selections[i]);
        }
        lemma_numbered(t, base);
        let items = numbered(base);
        let n = items.len() as int;
        lemma_merged_all(t, items, n, base[0]);
        let all = merged_all(items, n);
        let k = choose|k: int| #![trigger items[k]] 0 <= k < items.len() && items[k].0 == 0;
        assert(holds_primary(all));
        lemma_primary_index(all, 0);
        let at = primary_index(all, 0);
        let result = normalized(t, selections, fallback);
        assert(result =~= primary_first(all));
        assert(all[at].0 == 0);
        assert(result[0] == all[at].1);
        assert forall|i: int| 1 <= i < result.len() implies #[trigger] result[i] == all[if i - 1 < at {
            i - 1
        } else {
            i
        }].1 by {
            assert(all.remove(at)[i - 1] == all[if i - 1 < at {
                i - 1
            } else {
                i
            }]);
        }
        assert(all[at].1 == result[0]);
        assert(covers(all[at].1, base[0]));
        assert forall|i: int, j: int| #![trigger result[i], result[j]] 0 <= i < result.len() && 0 <= j
            < result.len() && i != j implies are_apart(result[i], result[j]) by {
            let a = if i == 0 {
                at
            } else if i - 1 < at {
                i - 1
            } else {
                i
            };
            let b = if j == 0 {
                at
            } else if j - 1 < at {
                j - 1
            } else {
                j
            };
            assert(result[i] == all[a].1 && result[j] == all[b].1);
            assert(a != b);
            if a < b {
                assert(!should_merge(all[a].1, all[b].1));
            } else {
                assert(!should_merge(all[b].1, all[a].1));
            }
        }
    }
}

/// Some selection covers `inner`.
pub open spec fn is_covered(selections: Seq<EditorSelection>, inner: EditorSelection) -> bool {
    exists|j: int| 0 <= j < selections.len() && covers(#[trigger] selections[j], inner)
}

/// Some item covers `inner`.
spec fn item_covers(items: Seq<(usize, EditorSelection)>, inner: EditorSelection) -> bool {
    exists|j: int| 0 <= j < items.len() && covers((#[trigger] items[j]).1, inner)
}

proof fn lemma_settled_covers(stack: Seq<(usize, EditorSelection)>, inner: EditorSelection)
    requires
        item_covers(stack, inner),
    ensures
        item_covers(settled(stack), inner),
    decreases stack.len(),
{
    let n = stack.len() as int;
    if n >= 2 && should_merge(stack[n - 2].1, stack[n - 1].1) {
        let shorter = stack.subrange(0, n - 2).push(merged(stack[n - 2], stack[n - 1]));
        let j = choose|j: int| 0 <= j < n && covers((#[trigger] stack[j]).1, inner);
        if j < n - 2 {
            assert(shorter[j] == stack[j]);
        } else {
            assert(covers(shorter[n - 2].1, inner));
        }
        lemma_settled_covers(shorter, inner);
    }
}

proof fn lemma_merged_covers(items: Seq<(usize, EditorSelection)>, n: int, i: int)
    requires
        0 <= i < n <= items.len(),
    ensures
        item_covers(merged_all(items, n), items[i].1),
    decreases n,
{
    let before = merged_all(items, n - 1);
    let stack = before.push(items[n - 1]);
    if i < n - 1 {
        lemma_merged_covers(items, n - 1, i);
        let j = choose|j: int|
            0 <= j < before.len() && covers((#[trigger] before[j]).1, items[i].1);
        assert(stack[j] == before[j]);
    } else {
        assert(stack[before.len() as int] == items[i]);
    }
    assert(item_covers(stack, items[i].1));
    lemma_settled_covers(stack, items[i].1);
}

/// Normalizing drops no part of what is selected: each selection that is
/// admitted lies, once it is widened to boundaries, in one of those that are left.
pub proof fn law_normalized_selections_cover(
    t: Seq<u8>,
    selections: Seq<EditorSelection>,
    fallback: EditorSelection,
    i: int,
)
    requires
        t.len() <= usize::MAX,
        0 <= i < selections.len(),
        i < MAX_EDITOR_SELECTIONS,
    ensures
        is_covered(normalized(t, selections, fallback), clipped(t, selections[i])),
{
    let base = admitted(t, selections);
    let n = base.len() as int;
    let keys = selection_keys(base);
    order::lemma_sorted_order(keys, n);
    let order = order::sorted_order(keys, n);
    assert(order.contains(i));
    let k = choose|k: int| 0 <= k < order.len() && order[k] == i;
    let items = numbered(base);
    assert(items[k].1 == clipped(t, selections[i]));
    lemma_merged_covers(items, n, k);
    lemma_stack_filled(t, selections);
    let all = merged_all(items, n);
    lemma_primary_index(all, 0);
    let at = primary_index(all, 0);
    let result = normalized(t, selections, fallback);
    let j = choose|j: int| 0 <= j < all.len() && covers((#[trigger] all[j]).1, items[k].1);
    if j == at {
        assert(result[0] == all[j].1);
    } else if j < at {
        assert(all.remove(at)[j] == all[j]);
        assert(result[j + 1] == all[j].1);
    } else {
        assert(all.remove(at)[j - 1] == all[j]);
        assert(result[j] == all[j].1);
    }
}

/// A caret has no direction.
pub open spec fn are_directed(selections: Seq<EditorSelection>) -> bool {
    forall|i: int|
        #![trigger selections[i]]
        0 <= i < selections.len() && selections[i].reversed ==> selections[i].range.start
            < selections[i].range.end
}

/// Every item is a range, and no caret has a direction.
spec fn items_directed(items: Seq<(usize, EditorSelection)>) -> bool {
    forall|i: int|
        #![trigger items[i]]
        0 <= i < items.len() ==> items[i].1.wf() && (items[i].1.reversed
            ==> items[i].1.range.start < items[i].1.range.end)
}

proof fn lemma_settled_directed(stack: Seq<(usize, EditorSelection)>)
    requires
        items_directed(stack),
    ensures
        items_directed(settled(stack)),
    decreases stack.len(),
{
    let n = stack.len() as int;
    if n >= 2 && should_merge(stack[n - 2].1, stack[n - 1].1) {
        let shorter = stack.subrange(0, n - 2).push(merged(stack[n - 2], stack[n - 1]));
        assert forall|i: int| #![trigger shorter[i]] 0 <= i < shorter.len() implies shorter[i].1.wf()
            && (shorter[i].1.reversed ==> shorter[i].1.range.start < shorter[i].1.range.end) by {
            if i < n - 2 {
                assert(shorter[i] == stack[i]);
            }
        }
        lemma_settled_directed(shorter);
    }
}

proof fn lemma_merged_directed(items: Seq<(usize, EditorSelection)>, n: int)
    requires
        0 <= n <= items.len(),
        items_directed(items),
    ensures
        items_directed(merged_all(items, n)),
    decreases n,
{
    if n > 0 {
        lemma_merged_directed(items, n - 1);
        assert(items_directed(merged_all(items, n - 1).push(items[n - 1])));
        lemma_settled_directed(merged_all(items, n - 1).push(items[n - 1]));
    }
}

/// Normalizing leaves no caret with a direction.
pub proof fn law_normalized_carets_have_no_direction(
    t: Seq<u8>,
    selections: Seq<EditorSelection>,
    fallback: EditorSelection,
)
    requires
        t.len() <= usize::MAX,
        selections.len() > 0,
    ensures
        are_directed(normalized(t, selections, fallback)),
{
    let base = admitted(t, selections);
    let n = base.len() as int;
    order::lemma_sorted_order(selection_keys(base), n);
    let items = numbered(base);
    assert forall|i: int| #![trigger items[i]] 0 <= i < n implies items[i].1.wf() && (
    items[i].1.reversed ==> items[i].1.range.start < items[i].1.range.end) by {
        let k = order::sorted_order(selection_keys(base), n)[i];
        text::lemma_floor_boundary(t, selections[k].range.start as int);
        text::lemma_ceil_boundary(t, selections[k].range.end as int);
        assert(items[i].1 == clipped(t, selections[k]));
    }
    lemma_merged_directed(items, n);
    lemma_stack_filled(t, selections);
    let all = merged_all(items, n);
    lemma_primary_index(all, 0);
    let at = primary_index(all, 0);
    let result = primary_first(all);
    assert forall|i: int| #![trigger result[i]] 0 <= i < result.len()
        && result[i].reversed implies result[i].range.start < result[i].range.end by {
        let k = if i == 0 {
            at
        } else if i - 1 < at {
            i - 1
        } else {
            i
        };
        if i > 0 {
            assert(all.remove(at)[i - 1] == all[k]);
        }
        assert(result[i] == all[k].1);
    }
}

/// Items of which none has to be merged stay as they are.
proof fn lemma_nothing_to_merge(items: Seq<(usize, EditorSelection)>, n: int)
    requires
        0 <= n <= items.len(),
        forall|i: int, j: int|
            #![trigger items[i], items[j]]
            0 <= i < j < items.len() ==> !should_merge(items[i].1, items[j].1),
    ensures
        merged_all(items, n) == items.take(n),
    decreases n,
{
    if n > 0 {
        lemma_nothing_to_merge(items, n - 1);
        let pushed = items.take(n - 1).push(items[n - 1]);
        assert(pushed =~= items.take(n));
        if n >= 2 {
            assert(pushed[n - 2] == items[n - 2]);
            assert(!should_merge(items[n - 2].1, items[n - 1].1));
        }
    } else {
        assert(items.take(0) =~= Seq::empty());
    }
}

/// Ascending indices that are as many as there are come in a row.
proof fn lemma_in_a_row(s: Seq<int>, i: int)
    requires
        0 <= i < s.len(),
        forall|k: int| #![trigger s[k]] 0 <= k < s.len() ==> 1 <= s[k] <= s.len(),
        forall|j: int, k: int| #![trigger s[j], s[k]] 0 <= j < k < s.len() ==> s[j] < s[k],
    ensures
        s[i] == i + 1,
{
    lemma_at_least(s, i);
    lemma_at_most(s, i);
}

proof fn lemma_at_least(s: Seq<int>, i: int)
    requires
        0 <= i < s.len(),
        forall|k: int| #![trigger s[k]] 0 <= k < s.len() ==> 1 <= s[k] <= s.len(),
        forall|j: int, k: int| #![trigger s[j], s[k]] 0 <= j < k < s.len() ==> s[j] < s[k],
    ensures
        s[i] >= i + 1,
    decreases i,
{
    if i > 0 {
        lemma_at_least(s, i - 1);
        assert(s[i - 1] < s[i]);
    }
}

proof fn lemma_at_most(s: Seq<int>, i: int)
    requires
        0 <= i < s.len(),
        forall|k: int| #![trigger s[k]] 0 <= k < s.len() ==> 1 <= s[k] <= s.len(),
        forall|j: int, k: int| #![trigger s[j], s[k]] 0 <= j < k < s.len() ==> s[j] < s[k],
    ensures
        s[i] <= i + 1,
    decreases s.len() - i,
{
    if i < s.len() - 1 {
        lemma_at_most(s, i + 1);
        assert(s[i] < s[i + 1]);
    }
}

/// Normal selections are not widened.
proof fn lemma_admitted(t: Seq<u8>, selections: Seq<EditorSelection>)
    requires
        are_all_apart(t, selections),
        are_directed(selections),
    ensures
        admitted(t, selections) == selections,
{
    let base = admitted(t, selections);
    assert forall|i: int| 0 <= i < selections.len() implies #[trigger] base[i] == selections[i] by {
        assert(is_on_boundaries(t, selections[i]));
        text::lemma_floor_boundary(t, selections[i].range.start as int);
        text::lemma_ceil_boundary(t, selections[i].range.end as int);
    }
    assert(base =~= selections);
}

/// Of two selections that are apart, the one that starts no later ends before
/// the other, and starts before it.
proof fn lemma_apart(a: EditorSelection, b: EditorSelection)
    requires
        a.wf(),
        b.wf(),
        are_apart(a, b),
        a.range.start <= b.range.start,
    ensures
        !should_merge(a, b),
        a.range.start < b.range.start,
{
}

/// No two of the selections reach into each other, and each ends on boundaries.
pub open spec fn are_all_apart(t: Seq<u8>, selections: Seq<EditorSelection>) -> bool {
    &&& 1 <= selections.len() <= MAX_EDITOR_SELECTIONS
    &&& forall|i: int|
        #![trigger selections[i]]
        0 <= i < selections.len() ==> is_on_boundaries(t, selections[i])
    &&& forall|i: int, j: int|
        #![trigger selections[i], selections[j]]
        0 <= i < selections.len() && 0 <= j < selections.len() && i != j ==> are_apart(
            selections[i],
            selections[j],
        )
}

/// Sorted selections that are apart start one behind the other.
proof fn lemma_sorted_apart(t: Seq<u8>, selections: Seq<EditorSelection>, i: int, j: int)
    requires
        are_all_apart(t, selections),
        0 <= i < j < selections.len(),
    ensures
        !should_merge(numbered(selections)[i].1, numbered(selections)[j].1),
        numbered(selections)[i].1.range.start < numbered(selections)[j].1.range.start,
{
    let keys = selection_keys(selections);
    let order = order::sorted_order(keys, selections.len() as int);
    order::lemma_sorted_order(keys, selections.len() as int);
    let a = order[i];
    let b = order[j];
    assert(a != b && order::key_le(keys[a], keys[b]));
    assert(is_on_boundaries(t, selections[a]));
    assert(is_on_boundaries(t, selections[b]));
    assert(are_apart(selections[a], selections[b]));
    lemma_apart(selections[a], selections[b]);
}

/// Sorted, normal selections without the first one keep their order.
proof fn lemma_others_in_a_row(t: Seq<u8>, selections: Seq<EditorSelection>, at: int)
    requires
        is_normal(t, selections),
        0 <= at < selections.len(),
        order::sorted_order(selection_keys(selections), selections.len() as int)[at] == 0,
    ensures
        ({
            let order = order::sorted_order(selection_keys(selections), selections.len() as int);
            forall|i: int|
                0 <= i < selections.len() - 1 ==> #[trigger] order.remove(at)[i] == i + 1
        }),
{
    let keys = selection_keys(selections);
    let order = order::sorted_order(keys, selections.len() as int);
    order::lemma_sorted_order(keys, selections.len() as int);
    let rest = order.remove(at);
    assert forall|j: int, k: int| #![trigger rest[j], rest[k]] 0 <= j < k < rest.len() implies rest[j]
        < rest[k] by {
        let jj = if j < at {
            j
        } else {
            j + 1
        };
        let kk = if k < at {
            k
        } else {
            k + 1
        };
        lemma_sorted_apart(t, selections, jj, kk);
        let a = order[jj];
        let b = order[kk];
        assert(rest[j] == a && rest[k] == b);
        assert(a != order[at] && b != order[at] && a != b);
        if b < a {
            assert(selections[b].range.start <= selections[a].range.start);
        }
    }
    assert forall|k: int| #![trigger rest[k]] 0 <= k < rest.len() implies 1 <= rest[k]
        <= rest.len() by {
        let kk = if k < at {
            k
        } else {
            k + 1
        };
        assert(rest[k] == order[kk]);
        assert(order[kk] != order[at]);
    }
    assert forall|i: int| 0 <= i < rest.len() implies #[trigger] rest[i] == i + 1 by {
        lemma_in_a_row(rest, i);
    }
}

/// Nothing is merged of sorted selections that are apart.
proof fn lemma_sorted_stays_apart(t: Seq<u8>, selections: Seq<EditorSelection>)
    requires
        are_all_apart(t, selections),
    ensures
        ({
            let items = numbered(selections);
            merged_all(items, items.len() as int) == items
        }),
{
    let n = selections.len() as int;
    order::lemma_sorted_order(selection_keys(selections), n);
    let items = numbered(selections);
    assert forall|i: int, j: int| #![trigger items[i], items[j]] 0 <= i < j < n implies !should_merge(
        items[i].1,
        items[j].1,
    ) by {
        lemma_sorted_apart(t, selections, i, j);
    }
    lemma_nothing_to_merge(items, n);
    assert(items.take(n) =~= items);
}

/// With the first one moved to the front, sorted, normal selections stand as
/// they did before they were sorted.
proof fn lemma_sorted_primary_first(t: Seq<u8>, selections: Seq<EditorSelection>)
    requires
        is_normal(t, selections),
    ensures
        primary_first(numbered(selections)) == selections,
{
    let keys = selection_keys(selections);
    let n = selections.len() as int;
    let order = order::sorted_order(keys, n);
    order::lemma_sorted_order(keys, n);
    let items = numbered(selections);
    assert(order.contains(0));
    let zero = choose|i: int| 0 <= i < order.len() && order[i] == 0;
    assert(items[zero].0 == 0);
    lemma_primary_index(items, 0);
    let at = primary_index(items, 0);
    assert(items[at].0 == order[at] as usize);
    lemma_others_in_a_row(t, selections, at);
    assert forall|i: int| 1 <= i < n implies #[trigger] primary_first(items)[i] == selections[i] by {
        assert(order.remove(at)[i - 1] == i);
        assert(items.remove(at)[i - 1].1 == selections[order.remove(at)[i - 1]]);
    }
    assert(primary_first(items)[0] == selections[0]);
    assert(primary_first(items) =~= selections);
}

/// Of selections that are apart, no caret with a direction, the first stays as
/// it is and in front when they are normalized, and none goes.
pub proof fn law_first_selection_stays(
    t: Seq<u8>,
    selections: Seq<EditorSelection>,
    fallback: EditorSelection,
)
    requires
        are_all_apart(t, selections),
        are_directed(selections),
    ensures
        normalized(t, selections, fallback).len() == selections.len(),
        normalized(t, selections, fallback)[0] == selections[0],
{
    lemma_admitted(t, selections);
    lemma_sorted_stays_apart(t, selections);
    let keys = selection_keys(selections);
    let n = selections.len() as int;
    let order = order::sorted_order(keys, n);
    order::lemma_sorted_order(keys, n);
    let items = numbered(selections);
    assert(order.contains(0));
    let zero = choose|i: int| 0 <= i < order.len() && order[i] == 0;
    assert(items[zero].0 == 0);
    lemma_primary_index(items, 0);
    let at = primary_index(items, 0);
    assert(items[at].0 == order[at] as usize);
}

/// Selections in normal form, no caret with a direction, stay as they are when
/// they are normalized again.
pub proof fn law_normal_selections_stay(
    t: Seq<u8>,
    selections: Seq<EditorSelection>,
    fallback: EditorSelection,
)
    requires
        is_normal(t, selections),
        are_directed(selections),
    ensures
        normalized(t, selections, fallback) == selections,
{
    lemma_admitted(t, selections);
    lemma_sorted_stays_apart(t, selections);
    lemma_sorted_primary_first(t, selections);
}

proof fn lemma_stack_filled(t: Seq<u8>, selections: Seq<EditorSelection>)
    requires
        t.len() <= usize::MAX,
        selections.len() > 0,
    ensures
        ({
            let items = numbered(admitted(t, selections));
            merged_all(items, items.len() as int).len() > 0
        }),
{
    let base = admitted(t, selections);
    assert forall|i: int| #![trigger base[i]] 0 <= i < base.len() implies is_on_boundaries(
        t,
        base[i],
    ) by {
        lemma_clipped(t, selections[i]);
    }
    lemma_numbered(t, base);
    let items = numbered(base);
    lemma_merged_all(t, items, items.len() as int, base[0]);
}

/// Whether two lists hold the same selections in the same order.
pub fn same_selections(a: &Vec<EditorSelection>, b: &Vec<EditorSelection>) -> (same: bool)
    ensures
        same == (a@ == b@),
{
    if a.len() != b.len() {
        return false;
    }
    let mut i: usize = 0;
    while i < a.len()
        invariant
            i <= a@.len(),
            a@.len() == b@.len(),
            forall|k: int| 0 <= k < i ==> a@[k] == b@[k],
        decreases a.len() - i,
    {
        if a[i] != b[i] {
            return false;
        }
        i = i + 1;
    }
    assert(a@ =~= b@);
    true
}

/// The selections with their indices, in the order of the text.
fn number_selections(selections: &Vec<EditorSelection>) -> (items: Vec<(usize, EditorSelection)>)
    ensures
        items@ == numbered(selections@),
{
    let mut keys: Vec<(usize, u128)> = Vec::new();
    let mut i: usize = 0;
    while i < selections.len()
        invariant
            i <= selections@.len(),
            keys@.len() == i,
            forall|k: int|
                0 <= k < i ==> (#[trigger] keys@[k]).0 == selection_key(selections@[k]).0
                    && keys@[k].1 == selection_key(selections@[k]).1,
        decreases selections.len() - i,
    {
        let side: u128 = if selections[i].reversed {
            0
        } else {
            1
        };
        keys.push((selections[i].range.start, 2 * (selections[i].range.end as u128) + side));
        i = i + 1;
    }
    assert(order::wide_keys_view(keys@) =~= selection_keys(selections@));
    let order = order::stable_order_wide(&keys);
    let mut items: Vec<(usize, EditorSelection)> = Vec::new();
    let mut j: usize = 0;
    while j < order.len()
        invariant
            j <= order@.len(),
            order@.len() == selections@.len(),
            items@.len() == j,
            order::indices_view(order@) == order::sorted_order(
                selection_keys(selections@),
                selections@.len() as int,
            ),
            forall|i: int| 0 <= i < order@.len() ==> #[trigger] order@[i] < selections@.len(),
            forall|k: int| 0 <= k < j ==> #[trigger] items@[k] == numbered(selections@)[k],
        decreases order.len() - j,
    {
        let at: usize = order[j];
        assert(order::indices_view(order@)[j as int] == at);
        items.push((at, selections[at]));
        j = j + 1;
    }
    assert(items@ =~= numbered(selections@));
    items
}

/// Merges neighbours where they have to be.
fn merge_neighbours(items: &Vec<(usize, EditorSelection)>) -> (stack: Vec<(usize, EditorSelection)>)
    ensures
        stack@ == merged_all(items@, items@.len() as int),
{
    let mut stack: Vec<(usize, EditorSelection)> = Vec::new();
    let mut i: usize = 0;
    assert(stack@ =~= merged_all(items@, 0));
    while i < items.len()
        invariant
            i <= items@.len(),
            stack@ == merged_all(items@, i as int),
        decreases items.len() - i,
    {
        stack.push(items[i]);
        let ghost target = settled(stack@);
        while stack.len() >= 2 && selections_should_merge(
            stack[stack.len() - 2].1,
            stack[stack.len() - 1].1,
        )
            invariant
                settled(stack@) == target,
            decreases stack@.len(),
        {
            let n: usize = stack.len();
            let ghost before = stack@;
            let combined = merge_selections(stack[n - 2], stack[n - 1]);
            stack.pop();
            stack.pop();
            stack.push(combined);
            assert(stack@ =~= before.subrange(0, before.len() - 2).push(
                merged(before[before.len() - 2], before[before.len() - 1]),
            ));
        }
        i = i + 1;
    }
    stack
}

/// Brings a list of selections into normal form.
pub fn normalize_selections(
    document: &Document,
    selections: &Vec<EditorSelection>,
    fallback: EditorSelection,
) -> (result: Vec<EditorSelection>)
    requires
        document.wf(),
        selections@.len() == 0 ==> is_on_boundaries(document.bytes(), fallback),
    ensures
        result@ == normalized(document.bytes(), selections@, fallback),
        is_normal(document.bytes(), result@),
{
    let ghost t = document.bytes();
    proof {
        document.lemma_wf();
        law_normalized_selections(t, selections@, fallback);
    }
    let mut result: Vec<EditorSelection> = Vec::new();
    if selections.len() == 0 {
        result.push(fallback);
        assert(result@ =~= normalized(t, selections@, fallback));
        return result;
    }
    let mut base: Vec<EditorSelection> = Vec::new();
    while base.len() < selections.len() && base.len() < MAX_EDITOR_SELECTIONS
        invariant
            document.wf(),
            t == document.bytes(),
            base@.len() <= selections@.len(),
            base@.len() <= MAX_EDITOR_SELECTIONS,
            forall|k: int| 0 <= k < base@.len() ==> #[trigger] base@[k] == clipped(t, selections@[k]),
        decreases selections.len() - base.len(),
    {
        let clip = clip_selection(document, selections[base.len()]);
        base.push(clip);
    }
    assert(base@ =~= admitted(t, selections@));
    let items = number_selections(&base);
    let stack = merge_neighbours(&items);
    let mut at: usize = 0;
    while at < stack.len() && stack[at].0 != 0
        invariant
            at <= stack@.len(),
            primary_index(stack@, 0) == primary_index(stack@, at as int),
        decreases stack.len() - at,
    {
        at = at + 1;
    }
    if at >= stack.len() {
        at = 0;
    }
    proof {
        assert(at == primary_index(stack@, 0));
        assert(primary_first(stack@).len() >= 1);
        if stack@.len() == 0 {
            lemma_stack_filled(t, selections@);
        }
    }
    result.push(stack[at].1);
    let ghost rest = stack@.remove(at as int);
    let mut i: usize = 0;
    while i < stack.len()
        invariant
            i <= stack@.len(),
            at < stack@.len(),
            rest == stack@.remove(at as int),
            result@.len() == 1 + i - (if i > at {
                1int
            } else {
                0int
            }),
            result@[0] == stack@[at as int].1,
            forall|k: int| 1 <= k < result@.len() ==> #[trigger] result@[k] == rest[k - 1].1,
        decreases stack.len() - i,
    {
        if i != at {
            result.push(stack[i].1);
        }
        i = i + 1;
    }
    assert(result@ =~= primary_first(stack@));
    result
}

} // verus!
