//! Picking and ordering the items of a list.

use crate::lsp::position::{check_position_le, position_le, TextRange};
use crate::order;
use vstd::prelude::*;

verus! {

/// `a` starts before `b`, or where `b` starts and does not end behind it.
pub open spec fn range_le(a: TextRange, b: TextRange) -> bool {
    if a.start == b.start {
        position_le(a.end, b.end)
    } else {
        position_le(a.start, b.start)
    }
}

/// What orders ranges by their starts, then by their ends.
pub open spec fn range_key(range: TextRange) -> (int, int) {
    (
        range.start.line as int,
        range.start.character * 0x1_0000_0000_0000_0000 + range.end.line * 0x1_0000_0000
            + range.end.character,
    )
}

/// The key orders ranges by their starts, then by their ends.
pub proof fn lemma_range_key(a: TextRange, b: TextRange)
    ensures
        order::key_le(range_key(a), range_key(b)) == range_le(a, b),
{
}

pub open spec fn range_keys(ranges: Seq<TextRange>) -> Seq<(int, int)> {
    Seq::new(ranges.len(), |i: int| range_key(ranges[i]))
}

/// The indices of the ranges in the order of the ranges, equal ones in the
/// order in which they came.
pub open spec fn range_order(ranges: Seq<TextRange>) -> Seq<int> {
    order::sorted_order(range_keys(ranges), ranges.len() as int)
}

/// The indices among the first `n` whose flag is set.
pub open spec fn flagged(flags: Seq<bool>, n: int) -> Seq<int>
    decreases n,
{
    if n <= 0 {
        Seq::empty()
    } else if flags[n - 1] {
        flagged(flags, n - 1).push(n - 1)
    } else {
        flagged(flags, n - 1)
    }
}

/// The items at the indices.
pub open spec fn picked<T>(items: Seq<T>, indices: Seq<int>) -> Seq<T> {
    Seq::new(indices.len(), |i: int| items[indices[i]])
}

/// The indices are those of items, and no two are the same.
pub open spec fn are_distinct(indices: Seq<int>, n: int) -> bool {
    &&& forall|i: int| #![trigger indices[i]] 0 <= i < indices.len() ==> 0 <= indices[i] < n
    &&& forall|i: int, j: int|
        #![trigger indices[i], indices[j]]
        0 <= i < j < indices.len() ==> indices[i] != indices[j]
}

/// The first items of a list, at most `most`.
pub open spec fn at_most<T>(items: Seq<T>, most: int) -> Seq<T> {
    if items.len() > most {
        items.take(most)
    } else {
        items
    }
}

/// The flagged indices in the order of their ranges, at most `most`.
pub open spec fn ordered_choice(
    ranges: Seq<TextRange>,
    flags: Seq<bool>,
    most: int,
) -> Seq<int> {
    let chosen = flagged(flags, flags.len() as int);
    at_most(picked(chosen, range_order(picked(ranges, chosen))), most)
}

pub proof fn lemma_flagged(flags: Seq<bool>, n: int)
    requires
        0 <= n <= flags.len(),
    ensures
        are_distinct(flagged(flags, n), n),
        flagged(flags, n).len() <= n,
        forall|i: int|
            #![trigger flagged(flags, n)[i]]
            0 <= i < flagged(flags, n).len() ==> flags[flagged(flags, n)[i]],
        forall|k: int| 0 <= k < n && flags[k] ==> #[trigger] flagged(flags, n).contains(k),
    decreases n,
{
    if n > 0 {
        lemma_flagged(flags, n - 1);
        let before = flagged(flags, n - 1);
        let after = flagged(flags, n);
        assert forall|k: int| 0 <= k < n && flags[k] implies #[trigger] after.contains(k) by {
            if k < n - 1 {
                assert(before.contains(k));
                let i = choose|i: int| 0 <= i < before.len() && before[i] == k;
                assert(after[i] == k);
            } else {
                assert(after[before.len() as int] == k);
            }
        }
    }
}

pub proof fn lemma_ordered_choice(ranges: Seq<TextRange>, flags: Seq<bool>, most: int)
    requires
        ranges.len() == flags.len(),
        0 <= most,
    ensures
        are_distinct(ordered_choice(ranges, flags, most), ranges.len() as int),
        ordered_choice(ranges, flags, most).len() <= most,
        forall|i: int|
            #![trigger ordered_choice(ranges, flags, most)[i]]
            0 <= i < ordered_choice(ranges, flags, most).len()
                ==> flags[ordered_choice(ranges, flags, most)[i]],
        forall|i: int, j: int|
            #![trigger ordered_choice(ranges, flags, most)[i], ordered_choice(ranges, flags, most)[j]]
            0 <= i < j < ordered_choice(ranges, flags, most).len() ==> range_le(
                ranges[ordered_choice(ranges, flags, most)[i]],
                ranges[ordered_choice(ranges, flags, most)[j]],
            ),
{
    let chosen = flagged(flags, flags.len() as int);
    lemma_flagged(flags, flags.len() as int);
    let some = picked(ranges, chosen);
    order::lemma_sorted_order(range_keys(some), some.len() as int);
    let sorted = range_order(some);
    let result = ordered_choice(ranges, flags, most);
    assert forall|i: int, j: int|
        #![trigger result[i], result[j]]
        0 <= i < j < result.len() implies result[i] != result[j] && range_le(
        ranges[result[i]],
        ranges[result[j]],
    ) by {
        assert(result[i] == chosen[sorted[i]]);
        assert(result[j] == chosen[sorted[j]]);
        assert(sorted[i] != sorted[j]);
        lemma_range_key(some[sorted[i]], some[sorted[j]]);
        if sorted[i] < sorted[j] {
            assert(chosen[sorted[i]] != chosen[sorted[j]]);
        } else {
            assert(chosen[sorted[j]] != chosen[sorted[i]]);
        }
    }
    assert forall|i: int|
        #![trigger result[i]]
        0 <= i < result.len() implies 0 <= result[i] < ranges.len() && flags[result[i]] by {
        assert(result[i] == chosen[sorted[i]]);
        assert(0 <= sorted[i] < chosen.len());
    }
}

/// The indices whose flag is set.
pub fn keep_flagged(flags: &Vec<bool>) -> (indices: Vec<usize>)
    ensures
        order::indices_view(indices@) == flagged(flags@, flags@.len() as int),
{
    let mut indices: Vec<usize> = Vec::new();
    let mut i: usize = 0;
    while i < flags.len()
        invariant
            i <= flags@.len(),
            order::indices_view(indices@) =~= flagged(flags@, i as int),
        decreases flags.len() - i,
    {
        if flags[i] {
            indices.push(i);
        }
        i = i + 1;
    }
    indices
}

/// The flagged indices in the order of their ranges, at most `most`.
pub fn choose_ordered(ranges: &Vec<TextRange>, flags: &Vec<bool>, most: usize) -> (indices: Vec<
    usize,
>)
    requires
        ranges@.len() == flags@.len(),
    ensures
        order::indices_view(indices@) == ordered_choice(ranges@, flags@, most as int),
        indices@.len() <= most,
        forall|i: int| 0 <= i < indices@.len() ==> #[trigger] indices@[i] < ranges@.len(),
{
    let chosen = keep_flagged(flags);
    let ghost chosen_view = order::indices_view(chosen@);
    proof {
        lemma_flagged(flags@, flags@.len() as int);
    }
    let mut keys: Vec<(usize, u128)> = Vec::new();
    let mut i: usize = 0;
    while i < chosen.len()
        invariant
            i <= chosen@.len(),
            chosen_view == order::indices_view(chosen@),
            are_distinct(chosen_view, ranges@.len() as int),
            order::wide_keys_view(keys@) =~= range_keys(picked(ranges@, chosen_view)).take(
                i as int,
            ),
        decreases chosen.len() - i,
    {
        assert(chosen_view[i as int] == chosen@[i as int]);
        let range = ranges[chosen[i]];
        let low: u128 = range.start.character as u128 * 0x1_0000_0000_0000_0000
            + range.end.line as u128 * 0x1_0000_0000 + range.end.character as u128;
        keys.push((range.start.line as usize, low));
        assert(picked(ranges@, chosen_view)[i as int] == range);
        assert(range_keys(picked(ranges@, chosen_view)).take(i + 1) =~= range_keys(
            picked(ranges@, chosen_view),
        ).take(i as int).push(range_key(range)));
        i = i + 1;
    }
    assert(order::wide_keys_view(keys@) =~= range_keys(picked(ranges@, chosen_view)));
    let sorted = order::stable_order_wide(&keys);
    let ghost sorted_view = order::indices_view(sorted@);
    let mut indices: Vec<usize> = Vec::new();
    let mut k: usize = 0;
    while k < sorted.len() && k < most
        invariant
            k <= sorted@.len(),
            k <= most,
            sorted@.len() == chosen@.len(),
            chosen_view == order::indices_view(chosen@),
            sorted_view == order::indices_view(sorted@),
            are_distinct(chosen_view, ranges@.len() as int),
            forall|j: int| 0 <= j < sorted@.len() ==> #[trigger] sorted@[j] < chosen@.len(),
            order::indices_view(indices@) =~= picked(chosen_view, sorted_view).take(k as int),
        decreases sorted.len() - k,
    {
        assert(sorted_view[k as int] == sorted@[k as int]);
        indices.push(chosen[sorted[k]]);
        assert(picked(chosen_view, sorted_view)[k as int] == chosen@[sorted@[k as int] as int]);
        assert(picked(chosen_view, sorted_view).take(k + 1) =~= picked(
            chosen_view,
            sorted_view,
        ).take(k as int).push(chosen_view[sorted_view[k as int]]));
        k = k + 1;
    }
    proof {
        lemma_ordered_choice(ranges@, flags@, most as int);
        assert(picked(chosen_view, sorted_view).take(k as int) =~= at_most(
            picked(chosen_view, sorted_view),
            most as int,
        ));
        assert forall|j: int| 0 <= j < indices@.len() implies #[trigger] indices@[j]
            < ranges@.len() by {
            assert(order::indices_view(indices@)[j] == indices@[j]);
        }
    }
    indices
}

/// Moves the items at the indices out of the list.
pub fn pick<T>(items: Vec<T>, indices: &Vec<usize>) -> (result: Vec<T>)
    requires
        are_distinct(order::indices_view(indices@), items@.len() as int),
    ensures
        result@ == picked(items@, order::indices_view(indices@)),
{
    let ghost view = order::indices_view(indices@);
    let ghost all = items@;
    let total: usize = items.len();
    let mut rest = items;
    let mut slots: Vec<Option<T>> = Vec::new();
    while rest.len() > 0
        invariant
            rest@ == all.take(rest@.len() as int),
            rest@.len() + slots@.len() == total,
            total == all.len(),
            forall|k: int|
                #![trigger slots@[k]]
                0 <= k < slots@.len() ==> slots@[k] == Some(all[total - 1 - k]),
        decreases rest.len(),
    {
        let item = rest.pop().unwrap();
        slots.push(Some(item));
    }
    let mut result: Vec<T> = Vec::new();
    let mut i: usize = 0;
    while i < indices.len()
        invariant
            i <= indices@.len(),
            view == order::indices_view(indices@),
            are_distinct(view, all.len() as int),
            total == all.len(),
            slots@.len() == total,
            result@ =~= picked(all, view).take(i as int),
            forall|k: int|
                #![trigger slots@[k]]
                0 <= k < total && !view.take(i as int).contains(total - 1 - k) ==> slots@[k]
                    == Some(all[total - 1 - k]),
        decreases indices.len() - i,
    {
        assert(view[i as int] == indices@[i as int]);
        let at: usize = total - 1 - indices[i];
        proof {
            let before = view.take(i as int);
            if before.contains(total - 1 - at) {
                let j = choose|j: int| 0 <= j < before.len() && before[j] == total - 1 - at;
                assert(view[j] == view[i as int]);
            }
            assert(slots@[at as int] == Some(all[view[i as int]]));
        }
        let mut taken: Option<T> = None;
        std::mem::swap(&mut taken, &mut slots[at]);
        result.push(taken.unwrap());
        proof {
            let before = view.take(i as int);
            let after = view.take(i + 1);
            assert forall|k: int|
                #![trigger slots@[k]]
                0 <= k < total && !after.contains(total - 1 - k) implies slots@[k] == Some(
                all[total - 1 - k],
            ) by {
                assert(after[i as int] == view[i as int]);
                if before.contains(total - 1 - k) {
                    let j = choose|j: int| 0 <= j < before.len() && before[j] == total - 1 - k;
                    assert(after[j] == total - 1 - k);
                }
                assert(k != at);
            }
        }
        i = i + 1;
    }
    assert(picked(all, view).take(indices@.len() as int) =~= picked(all, view));
    result
}

/// The items from the last to the first.
pub fn reversed<T>(items: Vec<T>) -> (result: Vec<T>)
    ensures
        result@ == items@.reverse(),
{
    let ghost all = items@;
    let mut rest = items;
    let mut result: Vec<T> = Vec::new();
    while rest.len() > 0
        invariant
            rest@ == all.take(rest@.len() as int),
            rest@.len() + result@.len() == all.len(),
            forall|k: int|
                #![trigger result@[k]]
                0 <= k < result@.len() ==> result@[k] == all[all.len() - 1 - k],
        decreases rest.len(),
    {
        let item = rest.pop().unwrap();
        result.push(item);
    }
    assert(result@ =~= all.reverse());
    result
}

/// `next` may not follow `previous`: it starts before `previous` ends, or, where
/// they may not touch, on the line and not behind where `previous` ends.
pub open spec fn is_blocked(previous: TextRange, next: TextRange, may_touch: bool) -> bool {
    if may_touch {
        !position_le(previous.end, next.start)
    } else {
        previous.end.line == next.start.line && previous.end.character >= next.start.character
    }
}

/// The first `n` of the indices without those that the one kept before blocks.
pub open spec fn separated(
    ranges: Seq<TextRange>,
    indices: Seq<int>,
    may_touch: bool,
    n: int,
) -> Seq<int>
    decreases n,
{
    if n <= 0 {
        Seq::empty()
    } else {
        let before = separated(ranges, indices, may_touch, n - 1);
        if before.len() > 0 && is_blocked(
            ranges[before.last()],
            ranges[indices[n - 1]],
            may_touch,
        ) {
            before
        } else {
            before.push(indices[n - 1])
        }
    }
}

/// What is kept are some of the indices in their order, none of which the one
/// before blocks.
pub proof fn lemma_separated(
    ranges: Seq<TextRange>,
    indices: Seq<int>,
    may_touch: bool,
    n: int,
)
    requires
        0 <= n <= indices.len(),
        are_distinct(indices, ranges.len() as int),
        forall|i: int, j: int|
            #![trigger indices[i], indices[j]]
            0 <= i < j < indices.len() ==> range_le(ranges[indices[i]], ranges[indices[j]]),
    ensures
        separated(ranges, indices, may_touch, n).len() <= n,
        n > 0 ==> separated(ranges, indices, may_touch, n).len() > 0,
        are_distinct(separated(ranges, indices, may_touch, n), ranges.len() as int),
        forall|i: int|
            #![trigger separated(ranges, indices, may_touch, n)[i]]
            0 <= i < separated(ranges, indices, may_touch, n).len() ==> exists|k: int|
                0 <= k < n && #[trigger] indices[k] == separated(
                    ranges,
                    indices,
                    may_touch,
                    n,
                )[i],
        forall|i: int, j: int|
            #![trigger separated(ranges, indices, may_touch, n)[i], separated(ranges, indices, may_touch, n)[j]]
            0 <= i < j < separated(ranges, indices, may_touch, n).len() ==> range_le(
                ranges[separated(ranges, indices, may_touch, n)[i]],
                ranges[separated(ranges, indices, may_touch, n)[j]],
            ),
        forall|i: int, j: int|
            #![trigger separated(ranges, indices, may_touch, n)[i], separated(ranges, indices, may_touch, n)[j]]
            0 <= i && i + 1 == j && j < separated(ranges, indices, may_touch, n).len()
                ==> !is_blocked(
                ranges[separated(ranges, indices, may_touch, n)[i]],
                ranges[separated(ranges, indices, may_touch, n)[j]],
                may_touch,
            ),
    decreases n,
{
    if n > 0 {
        lemma_separated(ranges, indices, may_touch, n - 1);
        let before = separated(ranges, indices, may_touch, n - 1);
        let after = separated(ranges, indices, may_touch, n);
        assert forall|i: int| #![trigger after[i]] 0 <= i < after.len() implies exists|k: int|
            0 <= k < n && #[trigger] indices[k] == after[i] by {
            if i < before.len() {
                assert(after[i] == before[i]);
                let k = choose|k: int| 0 <= k < n - 1 && #[trigger] indices[k] == before[i];
                assert(indices[k] == after[i]);
            } else {
                assert(indices[n - 1] == after[i]);
            }
        }
        assert forall|i: int, j: int|
            #![trigger after[i], after[j]]
            0 <= i < j < after.len() implies after[i] != after[j] && range_le(
            ranges[after[i]],
            ranges[after[j]],
        ) by {
            assert(after[i] == before[i]);
            if j < before.len() {
                assert(after[j] == before[j]);
            } else {
                let k = choose|k: int| 0 <= k < n - 1 && #[trigger] indices[k] == before[i];
                assert(indices[k] == before[i]);
                assert(after[j] == indices[n - 1]);
            }
        }
    }
}

/// Leaves out the indices that the one kept before blocks.
pub fn separate(ranges: &Vec<TextRange>, indices: &Vec<usize>, may_touch: bool) -> (kept: Vec<
    usize,
>)
    requires
        forall|i: int| 0 <= i < indices@.len() ==> #[trigger] indices@[i] < ranges@.len(),
    ensures
        order::indices_view(kept@) == separated(
            ranges@,
            order::indices_view(indices@),
            may_touch,
            indices@.len() as int,
        ),
{
    let ghost view = order::indices_view(indices@);
    let mut kept: Vec<usize> = Vec::new();
    let mut i: usize = 0;
    while i < indices.len()
        invariant
            i <= indices@.len(),
            view == order::indices_view(indices@),
            forall|k: int| 0 <= k < indices@.len() ==> #[trigger] indices@[k] < ranges@.len(),
            forall|k: int| 0 <= k < kept@.len() ==> #[trigger] kept@[k] < ranges@.len(),
            order::indices_view(kept@) =~= separated(ranges@, view, may_touch, i as int),
        decreases indices.len() - i,
    {
        let next = ranges[indices[i]];
        assert(view[i as int] == indices@[i as int]);
        let blocked = if kept.len() == 0 {
            false
        } else {
            let previous = ranges[kept[kept.len() - 1]];
            assert(order::indices_view(kept@).last() == kept@.last());
            if may_touch {
                !check_position_le(previous.end, next.start)
            } else {
                previous.end.line == next.start.line && previous.end.character
                    >= next.start.character
            }
        };
        if !blocked {
            kept.push(indices[i]);
        }
        i = i + 1;
    }
    kept
}

} // verus!
