//! What the mirrors of a tab stop read once they were brought into step.

use crate::cursor::EditorSelection;
use crate::cursor_edits;
use crate::edit;
use crate::order;
use crate::snippet_session;
use crate::snippet_session::SnippetModel;
use crate::snippet_state;
use crate::snippet_state::SyncModel;
use crate::state::InputState;
use crate::transaction;
use vstd::prelude::*;

verus! {

/// One range ends where the other starts at the latest, and before that where
/// they may not touch.
pub open spec fn are_beside(a: (int, int), b: (int, int), may_touch: bool) -> bool {
    ||| a.1 < b.0 || (may_touch && a.1 == b.0)
    ||| b.1 < a.0 || (may_touch && b.1 == a.0)
}

/// Every insertion has the same number of places of the active tab stop. No two
/// places are the same or overlap, and those of different insertions do not
/// touch.
pub open spec fn has_separate_places(session: SnippetModel, len: int) -> bool {
    let places = session.tabstops[session.active].1;
    let stride = session.stride();
    &&& session.has_active()
    &&& places.len() == session.instances * stride
    &&& forall|i: int|
        #![trigger places[i]]
        0 <= i < places.len() ==> 0 <= places[i].0 <= places[i].1 <= len
    &&& forall|i: int, j: int|
        #![trigger places[i], places[j]]
        0 <= i < places.len() && 0 <= j < places.len() && i != j ==> places[i] != places[j]
            && are_beside(places[i], places[j], i / stride == j / stride)
}

/// The places that mirror another, of the first `n` insertions.
spec fn mirror_places(stride: int, n: int) -> Seq<int>
    decreases n,
{
    if n <= 0 {
        Seq::empty()
    } else {
        mirror_places(stride, n - 1) + Seq::new(
            (stride - 1) as nat,
            |j: int| (n - 1) * stride + 1 + j,
        )
    }
}

/// The mirrors ascend, and each place but the first of an insertion is one.
proof fn lemma_mirror_places(stride: int, n: int)
    requires
        stride >= 1,
        n >= 0,
    ensures
        ({
            let at = mirror_places(stride, n);
            &&& forall|y: int| #![trigger at[y]] 0 <= y < at.len() ==> 0 <= at[y] < n * stride
            &&& forall|x: int, y: int|
                #![trigger at[x], at[y]]
                0 <= x < y < at.len() ==> at[x] < at[y]
            &&& forall|k: int, j: int|
                0 <= k < n && 1 <= j < stride ==> at.contains(#[trigger] (k * stride + j))
        }),
    decreases n,
{
    if n > 0 {
        lemma_mirror_places(stride, n - 1);
        let before = mirror_places(stride, n - 1);
        let at = mirror_places(stride, n);
        assert(n * stride == (n - 1) * stride + stride) by (nonlinear_arith);
        assert((n - 1) * stride >= 0) by (nonlinear_arith)
            requires
                n >= 1,
                stride >= 1,
        ;
        assert forall|y: int| #![trigger at[y]] 0 <= y < at.len() implies 0 <= at[y] < n
            * stride by {
            if y < before.len() {
                assert(at[y] == before[y]);
            }
        }
        assert forall|x: int, y: int| #![trigger at[x], at[y]] 0 <= x < y < at.len() implies at[x]
            < at[y] by {
            if y < before.len() {
                assert(at[x] == before[x] && at[y] == before[y]);
            } else if x < before.len() {
                assert(at[x] == before[x]);
            }
        }
        assert forall|k: int, j: int| 0 <= k < n && 1 <= j < stride implies at.contains(
            #[trigger] (k * stride + j),
        ) by {
            if k < n - 1 {
                assert(before.contains(k * stride + j));
                let y = choose|y: int| 0 <= y < before.len() && before[y] == k * stride + j;
                assert(at[y] == k * stride + j);
            } else {
                assert(at[before.len() + j - 1] == k * stride + j);
            }
        }
    }
}

/// What the place is to read: the text in the first place of its insertion.
spec fn place_value(t: Seq<u8>, session: SnippetModel, i: int) -> Seq<u8> {
    let active = session.active_ranges()[i / session.stride()];
    t.subrange(active.0, active.1)
}

/// Each of the edits is that of one mirror.
proof fn lemma_mirror_edits(t: Seq<u8>, session: SnippetModel, n: int)
    requires
        session.has_active(),
        session.stride() >= 1,
        0 <= n <= session.instances,
    ensures
        ({
            let edits = snippet_state::mirror_edits(t, session, n);
            let at = mirror_places(session.stride(), n);
            let places = session.tabstops[session.active].1;
            &&& edits.len() == at.len()
            &&& forall|y: int|
                #![trigger edits[y]]
                #![trigger at[y]]
                0 <= y < at.len() ==> edits[y] == (
                    places[at[y]].0,
                    places[at[y]].1,
                    place_value(t, session, at[y]),
                )
        }),
    decreases n,
{
    if n > 0 {
        lemma_mirror_edits(t, session, n - 1);
        let stride = session.stride();
        let edits = snippet_state::mirror_edits(t, session, n);
        let at = mirror_places(stride, n);
        let places = session.tabstops[session.active].1;
        let before = mirror_places(stride, n - 1);
        assert forall|y: int|
            #![trigger edits[y]]
            #![trigger at[y]]
            0 <= y < at.len() implies edits[y] == (
            places[at[y]].0,
            places[at[y]].1,
            place_value(t, session, at[y]),
        ) by {
            if y < before.len() {
                assert(edits[y] == snippet_state::mirror_edits(t, session, n - 1)[y]);
                assert(at[y] == before[y]);
            } else {
                let j = y - before.len();
                assert(at[y] == (n - 1) * stride + 1 + j);
                vstd::arithmetic::div_mod::lemma_fundamental_div_mod_converse(
                    at[y],
                    stride,
                    n - 1,
                    1 + j,
                );
            }
        }
    }
}

/// How far bringing places into step has come: the mirrors of the first `n`
/// edits are still where they were, the other places read their values.
spec fn is_under_way(
    t: Seq<u8>,
    places: Seq<(int, int)>,
    values: Seq<Seq<u8>>,
    groups: Seq<int>,
    edits: Seq<(int, int, Seq<u8>)>,
    at: Seq<int>,
    n: int,
) -> bool {
    &&& places.len() == values.len() == groups.len()
    &&& edits.len() == at.len()
    &&& 0 <= n <= edits.len()
    &&& forall|i: int|
        #![trigger places[i]]
        0 <= i < places.len() ==> 0 <= places[i].0 <= places[i].1 <= t.len()
    &&& forall|x: int|
        #![trigger at[x]]
        0 <= x < n ==> {
            &&& 0 <= at[x] < places.len()
            &&& edits[x] == (places[at[x]].0, places[at[x]].1, values[at[x]])
        }
    &&& forall|x: int, y: int|
        #![trigger at[x], at[y]]
        0 <= x < y < n ==> at[x] != at[y] && places[at[x]] != places[at[y]]
            && places[at[x]].1 <= places[at[y]].0
    &&& forall|i: int, x: int|
        #![trigger places[i], at[x]]
        0 <= i < places.len() && 0 <= x < n && i != at[x] ==> are_beside(
            places[i],
            places[at[x]],
            groups[i] == groups[at[x]],
        )
    &&& forall|i: int|
        #![trigger places[i]]
        0 <= i < places.len() && !at.take(n).contains(i) ==> t.subrange(places[i].0, places[i].1)
            == values[i]
    &&& forall|i: int, j: int|
        #![trigger values[i], values[j]]
        0 <= i < places.len() && 0 <= j < places.len() && groups[i] == groups[j] ==> values[i]
            == values[j]
}

/// A place other than that of the edit that is being made is not the same
/// range.
proof fn lemma_own_place(
    t: Seq<u8>,
    places: Seq<(int, int)>,
    values: Seq<Seq<u8>>,
    groups: Seq<int>,
    edits: Seq<(int, int, Seq<u8>)>,
    at: Seq<int>,
    n: int,
    i: int,
)
    requires
        is_under_way(t, places, values, groups, edits, at, n),
        n > 0,
        t.subrange(edits[n - 1].0, edits[n - 1].1) != edits[n - 1].2,
        0 <= i < places.len(),
        i != at[n - 1],
    ensures
        places[i] != places[at[n - 1]],
{
    let own = at[n - 1];
    if places[i] == places[own] {
        assert(are_beside(places[i], places[own], groups[i] == groups[own]));
        if at.take(n).contains(i) {
            let x = choose|x: int| 0 <= x < n && at.take(n)[x] == i;
            assert(at[x] == i);
        } else {
            assert(values[i] == values[own]);
        }
    }
}

/// Where one place comes to lie by the edit of a mirror, and what it reads.
proof fn lemma_place_followed(
    t: Seq<u8>,
    place: (int, int),
    e: (int, int, Seq<u8>),
    may_touch: bool,
)
    requires
        0 <= e.0 <= e.1 <= t.len(),
        0 <= place.0 <= place.1 <= t.len(),
        place == (e.0, e.1) || are_beside(place, (e.0, e.1), may_touch),
        t.len() + e.2.len() <= usize::MAX,
    ensures
        ({
            let moved = snippet_session::followed(place, (e.0, e.1), e.2.len() as int);
            let after = edit::replaced(t, e);
            &&& 0 <= moved.0 <= moved.1 <= after.len()
            &&& after.subrange(moved.0, moved.1) == if place == (e.0, e.1) {
                e.2
            } else {
                t.subrange(place.0, place.1)
            }
            &&& place == (e.0, e.1) ==> moved == (e.0, e.0 + e.2.len())
            &&& place != (e.0, e.1) && place.1 <= e.0 ==> moved == place
            &&& place != (e.0, e.1) && place.1 > e.0 ==> moved.0 == place.0 + e.2.len() - (e.1
                - e.0)
        }),
{
    edit::lemma_reading(t, e, place.0, place.1);
    if place == (e.0, e.1) {
        assert(edit::replaced(t, e).subrange(e.0, e.0 + e.2.len()) =~= e.2);
    }
}

/// A mirror that still has to be edited stays where it is, and every other
/// place stays beside it.
proof fn lemma_stays_beside(
    e: (int, int),
    inserted: int,
    place: (int, int),
    moved: (int, int),
    mirror: (int, int),
    place_near_e: bool,
    place_near_mirror: bool,
    e_near_mirror: bool,
)
    requires
        inserted >= 0,
        0 <= e.0 <= e.1,
        place.0 <= place.1,
        mirror.0 <= mirror.1 <= e.0,
        mirror != e,
        place == e || are_beside(place, e, place_near_e),
        are_beside(place, mirror, place_near_mirror),
        are_beside(e, mirror, e_near_mirror),
        place == e ==> moved == (e.0, e.0 + inserted) && place_near_mirror == e_near_mirror,
        place != e && place.1 <= e.0 ==> moved == place,
        place != e && place.1 > e.0 ==> moved.0 == place.0 + inserted - (e.1 - e.0),
        !place_near_mirror ==> !(place_near_e && e_near_mirror),
    ensures
        are_beside(moved, mirror, place_near_mirror),
{
}

/// Making the edit of one mirror brings the places one further.
proof fn lemma_one_mirror(
    t: Seq<u8>,
    places: Seq<(int, int)>,
    values: Seq<Seq<u8>>,
    groups: Seq<int>,
    edits: Seq<(int, int, Seq<u8>)>,
    at: Seq<int>,
    n: int,
)
    requires
        is_under_way(t, places, values, groups, edits, at, n),
        n > 0,
        t.subrange(edits[n - 1].0, edits[n - 1].1) != edits[n - 1].2,
        t.len() + edits[n - 1].2.len() <= usize::MAX,
    ensures
        ({
            let e = edits[n - 1];
            is_under_way(
                edit::replaced(t, e),
                Seq::new(
                    places.len(),
                    |i: int|
                        snippet_session::followed(places[i], (e.0, e.1), e.2.len() as int),
                ),
                values,
                groups,
                edits,
                at,
                n - 1,
            )
        }),
{
    let e = edits[n - 1];
    let own = at[n - 1];
    let after = edit::replaced(t, e);
    let moved = Seq::new(
        places.len(),
        |i: int| snippet_session::followed(places[i], (e.0, e.1), e.2.len() as int),
    );
    assert(places[own] == (e.0, e.1));
    assert forall|i: int| #![trigger moved[i]] 0 <= i < places.len() implies {
        &&& 0 <= moved[i].0 <= moved[i].1 <= after.len()
        &&& !at.take(n - 1).contains(i) ==> after.subrange(moved[i].0, moved[i].1) == values[i]
    } by {
        assert(0 <= places[i].0 <= places[i].1 <= t.len());
        if i != own {
            lemma_own_place(t, places, values, groups, edits, at, n, i);
        }
        lemma_place_followed(t, places[i], e, groups[i] == groups[own]);
        if i != own && at.take(n).contains(i) {
            let x = choose|x: int| 0 <= x < n && at.take(n)[x] == i;
            assert(at.take(n - 1)[x] == i);
        }
    }
    assert forall|x: int| #![trigger at[x]] 0 <= x < n - 1 implies moved[at[x]] == places[at[x]]
        && at[x] != own && places[at[x]].1 <= e.0 by {
        assert(at[x] != at[n - 1]);
    }
    assert forall|i: int, x: int|
        #![trigger moved[i], at[x]]
        0 <= i < moved.len() && 0 <= x < n - 1 && i != at[x] implies are_beside(
        moved[i],
        moved[at[x]],
        groups[i] == groups[at[x]],
    ) by {
        assert(at[x] != at[n - 1]);
        assert(0 <= places[i].0 <= places[i].1 <= t.len());
        if i != own {
            lemma_own_place(t, places, values, groups, edits, at, n, i);
        }
        lemma_place_followed(t, places[i], e, groups[i] == groups[own]);
        assert(are_beside(places[own], places[at[x]], groups[own] == groups[at[x]]));
        assert(are_beside(places[i], places[at[x]], groups[i] == groups[at[x]]));
        lemma_stays_beside(
            (e.0, e.1),
            e.2.len() as int,
            places[i],
            moved[i],
            places[at[x]],
            groups[i] == groups[own],
            groups[i] == groups[at[x]],
            groups[own] == groups[at[x]],
        );
    }
}

/// A mirror that reads its value needs no edit.
proof fn lemma_no_edit(
    t: Seq<u8>,
    places: Seq<(int, int)>,
    values: Seq<Seq<u8>>,
    groups: Seq<int>,
    edits: Seq<(int, int, Seq<u8>)>,
    at: Seq<int>,
    n: int,
)
    requires
        is_under_way(t, places, values, groups, edits, at, n),
        n > 0,
        t.subrange(edits[n - 1].0, edits[n - 1].1) == edits[n - 1].2,
    ensures
        is_under_way(t, places, values, groups, edits, at, n - 1),
{
    let own = at[n - 1];
    assert forall|i: int|
        #![trigger places[i]]
        0 <= i < places.len() && !at.take(n - 1).contains(i) implies t.subrange(
        places[i].0,
        places[i].1,
    ) == values[i] by {
        if i != own && at.take(n).contains(i) {
            let x = choose|x: int| 0 <= x < n && at.take(n)[x] == i;
            assert(at.take(n - 1)[x] == i);
        }
    }
}

/// Once the rest of the mirrors was brought into step, every place reads its
/// value.
proof fn lemma_in_step(
    m: SyncModel,
    values: Seq<Seq<u8>>,
    groups: Seq<int>,
    edits: Seq<(int, int, Seq<u8>)>,
    at: Seq<int>,
    n: int,
    most: int,
)
    requires
        m.going,
        0 <= m.session.active < m.session.tabstops.len(),
        is_under_way(
            m.text,
            m.session.tabstops[m.session.active].1,
            values,
            groups,
            edits,
            at,
            n,
        ),
        forall|x: int| #![trigger edits[x]] 0 <= x < edits.len() ==> edits[x].2.len() <= most,
        m.text.len() + n * most <= usize::MAX,
        snippet_state::synced(m, edits, n).going,
    ensures
        ({
            let after = snippet_state::synced(m, edits, n);
            let places = after.session.tabstops[after.session.active].1;
            &&& after.session.active == m.session.active
            &&& places.len() == values.len()
            &&& forall|i: int|
                #![trigger places[i]]
                0 <= i < places.len() ==> after.text.subrange(places[i].0, places[i].1)
                    == values[i]
        }),
    decreases n,
{
    let places = m.session.tabstops[m.session.active].1;
    if n > 0 {
        let e = edits[n - 1];
        assert(places[at[n - 1]] == (e.0, e.1));
        assert(e.2.len() <= most);
        assert(n * most == (n - 1) * most + most) by (nonlinear_arith);
        assert((n - 1) * most >= 0) by (nonlinear_arith)
            requires
                n >= 1,
                most >= 0,
        ;
        if snippet_state::is_readable(m.text, (e.0, e.1)) {
            if m.text.subrange(e.0, e.1) == e.2 {
                lemma_no_edit(m.text, places, values, groups, edits, at, n);
                lemma_in_step(m, values, groups, edits, at, n - 1, most);
            } else {
                lemma_one_mirror(m.text, places, values, groups, edits, at, n);
                let next = SyncModel {
                    text: edit::replaced(m.text, e),
                    session: m.session.after_edit((e.0, e.1), e.2.len() as int, None),
                    selections: Seq::new(
                        m.selections.len(),
                        |i: int|
                            snippet_state::selection_behind(
                                m.selections[i],
                                (e.0, e.1),
                                e.2.len() as int,
                            ),
                    ),
                    changed: true,
                    ..m
                };
                assert(next.session.tabstops[m.session.active].1 =~= Seq::new(
                    places.len(),
                    |i: int| snippet_session::followed(places[i], (e.0, e.1), e.2.len() as int),
                ));
                lemma_in_step(next, values, groups, edits, at, n - 1, most);
            }
        }
    } else {
        assert(at.take(0) =~= Seq::empty());
    }
}

/// The order in which the mirrors are edited, and their places, before the
/// first edit.
proof fn lemma_start(t: Seq<u8>, session: SnippetModel)
    requires
        has_separate_places(session, t.len() as int),
    ensures
        ({
            let mirrors = snippet_state::mirror_edits(t, session, session.instances);
            let edits = edit::sorted_edits(mirrors);
            let order = order::sorted_order(edit::edit_keys(mirrors), mirrors.len() as int);
            let places = session.tabstops[session.active].1;
            is_under_way(
                t,
                places,
                Seq::new(places.len(), |i: int| place_value(t, session, i)),
                Seq::new(places.len(), |i: int| i / session.stride()),
                edits,
                Seq::new(
                    edits.len(),
                    |x: int| mirror_places(session.stride(), session.instances)[order[x]],
                ),
                edits.len() as int,
            )
        }),
{
    let stride = session.stride();
    let n = session.instances;
    let mirrors = snippet_state::mirror_edits(t, session, n);
    let edits = edit::sorted_edits(mirrors);
    let keys = edit::edit_keys(mirrors);
    let order = order::sorted_order(keys, mirrors.len() as int);
    let places = session.tabstops[session.active].1;
    let values = Seq::new(places.len(), |i: int| place_value(t, session, i));
    let groups = Seq::new(places.len(), |i: int| i / stride);
    assert(stride >= 1) by (nonlinear_arith)
        requires
            stride == places.len() as int / n,
            places.len() >= n,
            n > 0,
    ;
    lemma_mirror_edits(t, session, n);
    lemma_mirror_places(stride, n);
    order::lemma_sorted_order(keys, mirrors.len() as int);
    let listed = mirror_places(stride, n);
    let at = Seq::new(edits.len(), |x: int| listed[order[x]]);
    let last = edits.len() as int;
    assert(at.take(last) =~= at);
    assert forall|x: int| #![trigger at[x]] 0 <= x < last implies {
        &&& 0 <= at[x] < places.len()
        &&& edits[x] == (places[at[x]].0, places[at[x]].1, values[at[x]])
    } by {
        assert(edits[x] == mirrors[order[x]]);
        assert(0 <= listed[order[x]] < n * stride);
    }
    assert forall|x: int, y: int| #![trigger at[x], at[y]] 0 <= x < y < last implies at[x] != at[y]
        && places[at[x]] != places[at[y]] && places[at[x]].1 <= places[at[y]].0 by {
        let a = order[x];
        let b = order[y];
        assert(a != b && order::key_le(keys[a], keys[b]));
        if a < b {
            assert(listed[a] < listed[b]);
        } else {
            assert(listed[b] < listed[a]);
        }
        assert(edits[x] == mirrors[a] && edits[y] == mirrors[b]);
        assert(are_beside(
            places[at[x]],
            places[at[y]],
            at[x] / stride == at[y] / stride,
        ));
    }
    assert forall|i: int|
        #![trigger places[i]]
        0 <= i < places.len() && !at.take(last).contains(i) implies t.subrange(
        places[i].0,
        places[i].1,
    ) == values[i] by {
        let k = i / stride;
        let j = i % stride;
        vstd::arithmetic::div_mod::lemma_fundamental_div_mod(i, stride);
        assert(stride * k == k * stride) by (nonlinear_arith);
        assert(0 <= k < n) by (nonlinear_arith)
            requires
                i == k * stride + j,
                0 <= j < stride,
                0 <= i < n * stride,
        ;
        if j >= 1 {
            assert(listed.contains(k * stride + j));
            let y = choose|y: int| 0 <= y < listed.len() && listed[y] == i;
            assert(order.contains(y));
            let x = choose|x: int| 0 <= x < order.len() && order[x] == y;
            assert(at[x] == i);
        }
    }
}

/// Every place reads its value once the mirrors were brought into step.
proof fn lemma_all_in_step(
    t: Seq<u8>,
    session: SnippetModel,
    selections: Seq<EditorSelection>,
    k: int,
    j: int,
)
    requires
        has_separate_places(session, t.len() as int),
        t.len() + session.tabstops[session.active].1.len() * t.len() <= usize::MAX,
        0 <= k < session.instances,
        0 <= j < session.stride(),
        ({
            let edits = edit::sorted_edits(
                snippet_state::mirror_edits(t, session, session.instances),
            );
            snippet_state::synced(
                SyncModel { text: t, session, selections, going: true, changed: false },
                edits,
                edits.len() as int,
            ).going
        }),
    ensures
        ({
            let edits = edit::sorted_edits(
                snippet_state::mirror_edits(t, session, session.instances),
            );
            let after = snippet_state::synced(
                SyncModel { text: t, session, selections, going: true, changed: false },
                edits,
                edits.len() as int,
            );
            let place = after.session.tabstops[session.active].1[k * session.stride() + j];
            let first = session.active_ranges()[k];
            after.text.subrange(place.0, place.1) == t.subrange(first.0, first.1)
        }),
{
    let stride = session.stride();
    let n = session.instances;
    let places = session.tabstops[session.active].1;
    let mirrors = snippet_state::mirror_edits(t, session, n);
    let edits = edit::sorted_edits(mirrors);
    let order = order::sorted_order(edit::edit_keys(mirrors), mirrors.len() as int);
    let at = Seq::new(edits.len(), |x: int| mirror_places(stride, n)[order[x]]);
    let values = Seq::new(places.len(), |i: int| place_value(t, session, i));
    let groups = Seq::new(places.len(), |i: int| i / stride);
    let m = SyncModel { text: t, session, selections, going: true, changed: false };
    lemma_start(t, session);
    lemma_few_mirrors(t, session);
    let last = edits.len() as int;
    assert(last * t.len() <= places.len() * t.len()) by (nonlinear_arith)
        requires
            last <= places.len(),
    ;
    lemma_in_step(m, values, groups, edits, at, last, t.len() as int);
    let i = k * stride + j;
    assert(0 <= i < n * stride) by (nonlinear_arith)
        requires
            i == k * stride + j,
            0 <= k < n,
            0 <= j < stride,
    ;
    vstd::arithmetic::div_mod::lemma_fundamental_div_mod_converse(i, stride, k, j);
    let result = snippet_state::synced(m, edits, last);
    let ended = result.session.tabstops[result.session.active].1;
    assert(result.text.subrange(ended[i].0, ended[i].1) == values[i]);
}

/// Once the mirrors of the active tab stop were brought into step, every place
/// of an insertion reads what its first place read before. The lengths that
/// come about are ones that a machine can hold.
pub proof fn law_mirrors_read_like_their_first(before: InputState, after: InputState, k: int, j: int)
    requires
        snippet_state::is_synchronized(before, after),
        before.snippet_session is Some,
        after.snippet_session is Some,
        ({
            let session = snippet_session::session_model(before.snippet_session->Some_0);
            let t = before.bytes();
            &&& has_separate_places(session, t.len() as int)
            &&& t.len() + session.tabstops[session.active].1.len() * t.len() <= usize::MAX
            &&& 0 <= k < session.instances
            &&& 0 <= j < session.stride()
        }),
    ensures
        ({
            let session = snippet_session::session_model(before.snippet_session->Some_0);
            let place = snippet_session::session_model(
                after.snippet_session->Some_0,
            ).tabstops[session.active].1[k * session.stride() + j];
            let first = session.active_ranges()[k];
            after.bytes().subrange(place.0, place.1) == before.bytes().subrange(first.0, first.1)
        }),
{
    let session = snippet_session::session_model(before.snippet_session->Some_0);
    lemma_all_in_step(before.bytes(), session, before.all_selections(), k, j);
}

/// Once several cursors have typed in the active tab stop of a snippet, every
/// place of an insertion reads what was typed into its first place. The lengths
/// that come about are ones that a machine can hold.
pub proof fn law_mirrors_follow_typing(
    before: InputState,
    after: InputState,
    edits: Seq<(int, int, Seq<u8>)>,
    carets: Seq<EditorSelection>,
    k: int,
    j: int,
)
    requires
        cursor_edits::is_cursor_transaction(before, after, edits, carets),
        after.snippet_session is Some,
        ({
            let t = edit::applied(before.bytes(), edits);
            let session = transaction::followed_session(
                snippet_session::optional_model(before.snippet_session),
                edits,
                edits.len() as int,
            )->Some_0;
            &&& has_separate_places(session, t.len() as int)
            &&& t.len() + session.tabstops[session.active].1.len() * t.len() <= usize::MAX
            &&& 0 <= k < session.instances
            &&& 0 <= j < session.stride()
        }),
    ensures
        ({
            let t = edit::applied(before.bytes(), edits);
            let session = transaction::followed_session(
                snippet_session::optional_model(before.snippet_session),
                edits,
                edits.len() as int,
            )->Some_0;
            let place = snippet_session::session_model(
                after.snippet_session->Some_0,
            ).tabstops[session.active].1[k * session.stride() + j];
            let first = session.active_ranges()[k];
            after.bytes().subrange(place.0, place.1) == t.subrange(first.0, first.1)
        }),
{
    let t = edit::applied(before.bytes(), edits);
    let session = transaction::followed_session(
        snippet_session::optional_model(before.snippet_session),
        edits,
        edits.len() as int,
    )->Some_0;
    lemma_all_in_step(t, session, Seq::empty(), k, j);
}

/// There are no more edits than places, and none inserts more than the text
/// held.
proof fn lemma_few_mirrors(t: Seq<u8>, session: SnippetModel)
    requires
        has_separate_places(session, t.len() as int),
    ensures
        ({
            let edits = edit::sorted_edits(
                snippet_state::mirror_edits(t, session, session.instances),
            );
            &&& edits.len() <= session.tabstops[session.active].1.len()
            &&& forall|x: int|
                #![trigger edits[x]]
                0 <= x < edits.len() ==> edits[x].2.len() <= t.len()
        }),
{
    let stride = session.stride();
    let n = session.instances;
    let places = session.tabstops[session.active].1;
    let mirrors = snippet_state::mirror_edits(t, session, n);
    let edits = edit::sorted_edits(mirrors);
    assert(stride >= 1) by (nonlinear_arith)
        requires
            stride == places.len() as int / n,
            places.len() >= n,
            n > 0,
    ;
    lemma_mirror_edits(t, session, n);
    lemma_mirror_places(stride, n);
    lemma_mirror_count(stride, n);
    order::lemma_sorted_order(edit::edit_keys(mirrors), mirrors.len() as int);
    assert forall|x: int| #![trigger edits[x]] 0 <= x < edits.len() implies edits[x].2.len()
        <= t.len() by {
        let y = order::sorted_order(edit::edit_keys(mirrors), mirrors.len() as int)[x];
        let i = mirror_places(stride, n)[y];
        assert(mirrors[y].2 == place_value(t, session, i));
        let k = i / stride;
        vstd::arithmetic::div_mod::lemma_fundamental_div_mod(i, stride);
        assert(stride * k == k * stride) by (nonlinear_arith);
        assert(0 <= k < n && 0 <= k * stride < n * stride) by (nonlinear_arith)
            requires
                i == k * stride + i % stride,
                0 <= i % stride < stride,
                0 <= i < n * stride,
        ;
        assert(session.active_ranges()[k] == places[k * stride]);
        assert(0 <= places[k * stride].0 <= places[k * stride].1 <= t.len());
    }
}

proof fn lemma_mirror_count(stride: int, n: int)
    requires
        stride >= 1,
        n >= 0,
    ensures
        mirror_places(stride, n).len() <= n * stride,
    decreases n,
{
    if n > 0 {
        lemma_mirror_count(stride, n - 1);
        assert(n * stride == (n - 1) * stride + stride) by (nonlinear_arith);
    }
}

} // verus!
