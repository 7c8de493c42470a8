//! How two selections go together.

use crate::cursor::EditorSelection;
use crate::multi_cursor as cursors;
use crate::order;
use crate::scalars;
use crate::text;
use vstd::prelude::*;
use vstd::utf8::*;

verus! {

/// A selection of the text, with a direction only where it is no caret.
pub open spec fn is_plain(t: Seq<u8>, selection: EditorSelection) -> bool {
    &&& cursors::is_on_boundaries(t, selection)
    &&& selection.reversed ==> selection.range.start < selection.range.end
}

pub open spec fn is_caret(selection: EditorSelection) -> bool {
    selection.range.start == selection.range.end
}

/// The one ends before the other starts; where neither is a caret it may end right
/// there.
pub open spec fn is_before(a: EditorSelection, b: EditorSelection) -> bool {
    if is_caret(a) || is_caret(b) {
        a.range.end < b.range.start
    } else {
        a.range.end <= b.range.start
    }
}

proof fn lemma_clipped(t: Seq<u8>, selection: EditorSelection)
    requires
        is_plain(t, selection),
        t.len() <= usize::MAX,
    ensures
        cursors::clipped(t, selection) == selection,
{
    text::lemma_floor_boundary(t, selection.range.start as int);
    text::lemma_ceil_boundary(t, selection.range.end as int);
}

proof fn lemma_order_of_two(keys: Seq<(int, int)>)
    requires
        keys.len() == 2,
    ensures
        order::sorted_order(keys, 2) == if order::key_le(keys[0], keys[1]) {
            seq![0int, 1int]
        } else {
            seq![1int, 0int]
        },
{
    let none = Seq::<int>::empty();
    assert(order::sorted_order(keys, 0) == none);
    assert(order::insert_position(keys, none, 0, 0) == 0);
    assert(order::sorted_order(keys, 1) =~= seq![0int]);
    let one = seq![0int];
    assert(one[0] == 0);
    assert(order::insert_position(keys, one, 1, 0) == 0);
    if order::key_le(keys[0], keys[1]) {
        assert(order::insert_position(keys, one, 1, 1) == 1);
        assert(one.insert(1, 1) =~= seq![0int, 1int]);
    } else {
        assert(order::insert_position(keys, one, 1, 1) == 0);
        assert(one.insert(0, 1) =~= seq![1int, 0int]);
    }
}

/// Two selections that are apart both stay, the first in front. Two that overlap, or
/// touch where one is a caret, become one that covers both, with the direction of the
/// first.
#[verifier::rlimit(30)]
pub proof fn law_two_selections(
    t: Seq<u8>,
    a: EditorSelection,
    b: EditorSelection,
    fallback: EditorSelection,
)
    requires
        t.len() <= usize::MAX,
        is_plain(t, a),
        is_plain(t, b),
    ensures
        ({
            let kept = cursors::normalized(t, seq![a, b], fallback);
            if is_before(a, b) || is_before(b, a) {
                kept == seq![a, b]
            } else {
                &&& kept.len() == 1
                &&& kept[0].range.start == if a.range.start <= b.range.start {
                    a.range.start
                } else {
                    b.range.start
                }
                &&& kept[0].range.end == if a.range.end >= b.range.end {
                    a.range.end
                } else {
                    b.range.end
                }
                &&& kept[0].reversed == a.reversed
            }
        }),
{
    let all = seq![a, b];
    lemma_clipped(t, a);
    lemma_clipped(t, b);
    assert(cursors::admitted(t, all) =~= all);
    let keys = cursors::selection_keys(all);
    assert(all[0] == a && all[1] == b);
    assert(keys[0] == cursors::selection_key(a) && keys[1] == cursors::selection_key(b));
    lemma_order_of_two(keys);
    let first = (0usize, a);
    let second = (1usize, b);
    let items = cursors::numbered(all);
    let forward = order::key_le(keys[0], keys[1]);
    let left = if forward {
        first
    } else {
        second
    };
    let right = if forward {
        second
    } else {
        first
    };
    assert(items =~= seq![left, right]);
    assert(cursors::merged_all(items, 0) =~= Seq::empty());
    let one = Seq::<(usize, EditorSelection)>::empty().push(left);
    assert(cursors::settled(one) == one);
    assert(cursors::merged_all(items, 1) == one);
    let both = one.push(right);
    assert(cursors::merged_all(items, 2) == cursors::settled(both));
    assert(both[0] == left && both[1] == right);
    if cursors::should_merge(left.1, right.1) {
        let single = both.subrange(0, 0).push(cursors::merged(left, right));
        assert(cursors::settled(single) == single);
        assert(cursors::settled(both) == single);
        assert(single[0] == cursors::merged(left, right));
        assert(single[0].0 == 0);
        assert(cursors::primary_index(single, 0) == 0);
        assert(cursors::primary_first(single) =~= seq![single[0].1]);
        assert(!is_before(a, b) && !is_before(b, a));
    } else {
        assert(cursors::settled(both) == both);
        assert(is_before(left.1, right.1));
        if forward {
            assert(cursors::primary_index(both, 0) == 0);
        } else {
            assert(cursors::primary_index(both, 1) == 1);
            assert(cursors::primary_index(both, 0) == 1);
        }
        assert(cursors::primary_first(both) =~= seq![a, b]);
    }
}

/// A selection that ends inside a character is widened to take it in: its start goes
/// to the greatest boundary that is not behind it, its end to the least that is not
/// before it.
#[verifier::rlimit(30)]
pub proof fn law_widened_selection(t: Seq<u8>, selection: EditorSelection)
    requires
        valid_utf8(t),
        t.len() <= usize::MAX,
        selection.range.start <= selection.range.end <= t.len(),
    ensures
        ({
            let wide = cursors::clipped(t, selection);
            &&& is_char_boundary(t, wide.range.start as int)
            &&& is_char_boundary(t, wide.range.end as int)
            &&& wide.range.start <= selection.range.start
            &&& selection.range.end <= wide.range.end <= t.len()
            &&& forall|o: int|
                wide.range.start < o <= selection.range.start ==> !#[trigger] is_char_boundary(t, o)
            &&& forall|o: int|
                selection.range.end <= o < wide.range.end ==> !#[trigger] is_char_boundary(t, o)
        }),
{
    let start = selection.range.start as int;
    let end = selection.range.end as int;
    let a = text::floor_boundary(t, start);
    let b = text::ceil_boundary(t, end);
    text::lemma_floor_boundary(t, start);
    text::lemma_ceil_boundary(t, end);
    text::lemma_boundary(t, a);
    text::lemma_boundary(t, b);
    if start < t.len() {
        scalars::lemma_previous_boundary(t, start + 1);
    } else {
        assert(a == t.len());
    }
    if end > 0 {
        if end <= t.len() {
            scalars::lemma_next_boundary(t, end - 1);
        }
    } else {
        assert(b == 0);
    }
}

} // verus!
