//! Visiting the tab stops of inserted snippets.

use crate::snippet;
use crate::snippet::{ParsedSnippet, SnippetTabstop};
use crate::text;
use std::ops::Range;
use vstd::prelude::*;

verus! {

/// The tab stops of a snippet that was inserted at one or more places. The
/// ranges of a tab stop are those of the first insertion, then those of the
/// next, and so on.
pub struct SnippetSession {
    pub tabstops: Vec<SnippetTabstop>,
    pub active: usize,
    pub instances: usize,
}

/// A session as plain values.
pub struct SnippetModel {
    pub tabstops: Seq<(u32, Seq<(int, int)>)>,
    pub active: int,
    pub instances: int,
}

pub open spec fn clamp(x: int) -> int {
    if x < 0 {
        0
    } else if x > usize::MAX {
        usize::MAX as int
    } else {
        x
    }
}

pub open spec fn at_least(x: int, least: int) -> int {
    if x < least {
        least
    } else {
        x
    }
}

/// The growth of the text by an edit of `edit` that inserts `inserted` bytes.
pub open spec fn edit_growth(edit: (int, int), inserted: int) -> int {
    inserted - at_least(edit.1 - edit.0, 0)
}

/// Where the range comes to lie after the edit.
pub open spec fn followed(range: (int, int), edit: (int, int), inserted: int) -> (int, int) {
    let delta = edit_growth(edit, inserted);
    if range == edit {
        (range.0, clamp(range.0 + inserted))
    } else if range.1 <= edit.0 {
        range
    } else if range.0 >= edit.1 {
        (clamp(range.0 + delta), clamp(range.1 + delta))
    } else {
        let start = if range.0 <= edit.0 {
            range.0
        } else {
            edit.0
        };
        (start, at_least(clamp(range.1 + delta), start))
    }
}

/// The range in which the edit was made, after it.
pub open spec fn grown(range: (int, int), edit: (int, int), inserted: int) -> (int, int) {
    (range.0, at_least(clamp(range.1 + edit_growth(edit, inserted)), range.0))
}

/// An edit leaves a range a range.
pub proof fn law_followed_range_is_range(range: (int, int), edit: (int, int), inserted: int)
    requires
        0 <= range.0 <= range.1 <= usize::MAX,
        0 <= edit.0 <= edit.1,
        0 <= inserted,
    ensures
        0 <= followed(range, edit, inserted).0 <= followed(range, edit, inserted).1 <= usize::MAX,
        0 <= grown(range, edit, inserted).0 <= grown(range, edit, inserted).1 <= usize::MAX,
{
}

/// Where text outside the edit only moves, what a range held it still holds:
/// a range that ends before the edit stays, one that starts after it moves by
/// the growth of the text.
pub proof fn law_followed_range_moves_with_its_text(
    range: (int, int),
    edit: (int, int),
    inserted: int,
)
    requires
        0 <= range.0 <= range.1,
        0 <= edit.0 <= edit.1,
        0 <= inserted,
        range != edit,
        range.1 + inserted <= usize::MAX,
    ensures
        range.1 <= edit.0 ==> followed(range, edit, inserted) == range,
        range.0 >= edit.1 && range.1 > edit.0 ==> followed(range, edit, inserted) == (
            range.0 + edit_growth(edit, inserted),
            range.1 + edit_growth(edit, inserted),
        ),
{
}

impl SnippetModel {
    /// Number of ranges that each insertion has of the active tab stop.
    pub open spec fn stride(self) -> int {
        self.tabstops[self.active].1.len() as int / self.instances
    }

    pub open spec fn has_active(self) -> bool {
        &&& 0 <= self.active < self.tabstops.len()
        &&& self.instances > 0
        &&& self.tabstops[self.active].1.len() >= self.instances
    }

    /// The range to edit of each insertion.
    pub open spec fn active_ranges(self) -> Seq<(int, int)> {
        if self.has_active() {
            Seq::new(
                self.instances as nat,
                |k: int| self.tabstops[self.active].1[k * self.stride()],
            )
        } else {
            Seq::empty()
        }
    }

    /// The first insertion whose active range holds the edit.
    pub open spec fn edited_instance(self, edit: (int, int), from: int) -> Option<int>
        decreases self.instances - from,
    {
        if from < 0 || from >= self.active_ranges().len() || from >= self.instances {
            None
        } else {
            let range = self.active_ranges()[from];
            if range.0 <= edit.0 && edit.1 <= range.1 {
                Some(from)
            } else {
                self.edited_instance(edit, from + 1)
            }
        }
    }

    /// The ranges after an edit in `special`, a range of the active tab stop.
    pub open spec fn after_edit(
        self,
        edit: (int, int),
        inserted: int,
        special: Option<int>,
    ) -> SnippetModel {
        SnippetModel {
            tabstops: Seq::new(
                self.tabstops.len(),
                |i: int|
                    (
                        self.tabstops[i].0,
                        Seq::new(
                            self.tabstops[i].1.len(),
                            |j: int|
                                if i == self.active && special == Some(j) {
                                    grown(self.tabstops[i].1[j], edit, inserted)
                                } else {
                                    followed(self.tabstops[i].1[j], edit, inserted)
                                },
                        ),
                    ),
            ),
            ..self
        }
    }

    /// The session after the user's edit, or nothing where it was not made in
    /// an active range.
    pub open spec fn after_user_edit(self, edit: (int, int), inserted: int) -> Option<
        SnippetModel,
    > {
        match self.edited_instance(edit, 0) {
            Some(k) => Some(self.after_edit(edit, inserted, Some(k * self.stride()))),
            None => None,
        }
    }
}

pub open spec fn session_model(session: SnippetSession) -> SnippetModel {
    SnippetModel {
        tabstops: snippet::tabstops_view(session.tabstops@),
        active: session.active as int,
        instances: session.instances as int,
    }
}

pub open spec fn optional_model(session: Option<SnippetSession>) -> Option<SnippetModel> {
    match session {
        Some(session) => Some(session_model(session)),
        None => None,
    }
}

/// The ranges of a tab stop, moved to each of the first `n` insertions.
pub open spec fn inserted_ranges(ranges: Seq<(int, int)>, starts: Seq<usize>, n: int) -> Seq<
    (int, int),
>
    decreases n,
{
    if n <= 0 {
        Seq::empty()
    } else {
        inserted_ranges(ranges, starts, n - 1) + Seq::new(
            ranges.len(),
            |i: int| (clamp(starts[n - 1] + ranges[i].0), clamp(starts[n - 1] + ranges[i].1)),
        )
    }
}

/// The session of a snippet that was inserted at the starts.
pub open spec fn new_session(
    tabstops: Seq<(u32, Seq<(int, int)>)>,
    starts: Seq<usize>,
) -> Option<SnippetModel> {
    if tabstops.len() == 0 || starts.len() == 0 {
        None
    } else {
        Some(
            SnippetModel {
                tabstops: Seq::new(
                    tabstops.len(),
                    |i: int|
                        (
                            tabstops[i].0,
                            inserted_ranges(tabstops[i].1, starts, starts.len() as int),
                        ),
                ),
                active: 0,
                instances: starts.len() as int,
            },
        )
    }
}

fn clamped_sum(a: usize, b: i128) -> (sum: usize)
    requires
        -0x1_0000_0000_0000_0000 <= b <= 0x1_0000_0000_0000_0000,
    ensures
        sum == clamp(a + b),
{
    let sum: i128 = a as i128 + b;
    if sum < 0 {
        0
    } else if sum > usize::MAX as i128 {
        usize::MAX
    } else {
        sum as usize
    }
}

fn find_growth(edit: &Range<usize>, inserted: usize) -> (delta: i128)
    ensures
        delta == edit_growth((edit.start as int, edit.end as int), inserted as int),
        -0x1_0000_0000_0000_0000 <= delta <= 0x1_0000_0000_0000_0000,
{
    let removed: usize = if edit.end >= edit.start {
        edit.end - edit.start
    } else {
        0
    };
    inserted as i128 - removed as i128
}

fn follow(range: &Range<usize>, edit: &Range<usize>, inserted: usize) -> (moved: Range<usize>)
    ensures
        (moved.start as int, moved.end as int) == followed(
            (range.start as int, range.end as int),
            (edit.start as int, edit.end as int),
            inserted as int,
        ),
{
    let delta: i128 = find_growth(edit, inserted);
    if range.start == edit.start && range.end == edit.end {
        range.start..clamped_sum(range.start, inserted as i128)
    } else if range.end <= edit.start {
        range.start..range.end
    } else if range.start >= edit.end {
        clamped_sum(range.start, delta)..clamped_sum(range.end, delta)
    } else {
        let start: usize = if range.start <= edit.start {
            range.start
        } else {
            edit.start
        };
        let end: usize = clamped_sum(range.end, delta);
        if end < start {
            start..start
        } else {
            start..end
        }
    }
}

fn grow(range: &Range<usize>, edit: &Range<usize>, inserted: usize) -> (moved: Range<usize>)
    ensures
        (moved.start as int, moved.end as int) == grown(
            (range.start as int, range.end as int),
            (edit.start as int, edit.end as int),
            inserted as int,
        ),
{
    let delta: i128 = find_growth(edit, inserted);
    let end: usize = clamped_sum(range.end, delta);
    if end < range.start {
        range.start..range.start
    } else {
        range.start..end
    }
}

/// The ranges of a tab stop, moved to each insertion.
fn insert_ranges(ranges: &Vec<Range<usize>>, starts: &[usize]) -> (inserted: Vec<Range<usize>>)
    ensures
        text::ranges_view(inserted@) == inserted_ranges(
            text::ranges_view(ranges@),
            starts@,
            starts@.len() as int,
        ),
{
    let ghost rv = text::ranges_view(ranges@);
    let mut inserted: Vec<Range<usize>> = Vec::new();
    let mut n: usize = 0;
    assert(text::ranges_view(inserted@) =~= inserted_ranges(rv, starts@, 0));
    while n < starts.len()
        invariant
            n <= starts@.len(),
            rv == text::ranges_view(ranges@),
            text::ranges_view(inserted@) == inserted_ranges(rv, starts@, n as int),
        decreases starts.len() - n,
    {
        let start: usize = starts[n];
        let ghost before = text::ranges_view(inserted@);
        let ghost more = Seq::new(
            rv.len(),
            |i: int| (clamp(start + rv[i].0), clamp(start + rv[i].1)),
        );
        let mut i: usize = 0;
        assert(before + more.take(0) =~= before);
        while i < ranges.len()
            invariant
                i <= ranges@.len(),
                rv == text::ranges_view(ranges@),
                more == Seq::new(
                    rv.len(),
                    |i: int| (clamp(start + rv[i].0), clamp(start + rv[i].1)),
                ),
                text::ranges_view(inserted@) == before + more.take(i as int),
            decreases ranges.len() - i,
        {
            let ghost held = inserted@;
            let from: usize = clamped_sum(start, ranges[i].start as i128);
            let to: usize = clamped_sum(start, ranges[i].end as i128);
            inserted.push(from..to);
            proof {
                assert(rv[i as int] == (ranges@[i as int].start as int, ranges@[i as int].end as int));
                assert(more[i as int] == (from as int, to as int));
                assert(text::ranges_view(inserted@) =~= text::ranges_view(held).push(
                    (from as int, to as int),
                ));
                assert(more.take(i + 1) =~= more.take(i as int).push(more[i as int]));
                assert(before + more.take(i + 1) =~= (before + more.take(i as int)).push(
                    more[i as int],
                ));
            }
            i = i + 1;
        }
        assert(more.take(ranges@.len() as int) =~= more);
        n = n + 1;
    }
    inserted
}

impl SnippetSession {
    /// A session for a snippet that was inserted once.
    pub fn new(parsed: &ParsedSnippet, insertion_start: usize) -> (session: Option<Self>)
        ensures
            optional_model(session) == new_session(
                snippet::tabstops_view(parsed.tabstops@),
                seq![insertion_start],
            ),
    {
        let mut starts: Vec<usize> = Vec::new();
        starts.push(insertion_start);
        assert(starts@ =~= seq![insertion_start]);
        Self::new_many(parsed, starts.as_slice())
    }

    /// A session for a snippet that was inserted at each of the starts.
    pub fn new_many(parsed: &ParsedSnippet, insertion_starts: &[usize]) -> (session: Option<Self>)
        ensures
            optional_model(session) == new_session(
                snippet::tabstops_view(parsed.tabstops@),
                insertion_starts@,
            ),
    {
        let ghost tv = snippet::tabstops_view(parsed.tabstops@);
        if parsed.tabstops.len() == 0 || insertion_starts.len() == 0 {
            return None;
        }
        let ghost expected = new_session(tv, insertion_starts@)->Some_0;
        let mut tabstops: Vec<SnippetTabstop> = Vec::new();
        while tabstops.len() < parsed.tabstops.len()
            invariant
                tabstops@.len() <= parsed.tabstops@.len(),
                tv == snippet::tabstops_view(parsed.tabstops@),
                parsed.tabstops@.len() > 0,
                insertion_starts@.len() > 0,
                expected == new_session(tv, insertion_starts@)->Some_0,
                forall|k: int|
                    0 <= k < tabstops@.len() ==> ((#[trigger] tabstops@[k]).index, text::ranges_view(
                        tabstops@[k].ranges@,
                    )) == expected.tabstops[k],
            decreases parsed.tabstops.len() - tabstops.len(),
        {
            let tabstop = &parsed.tabstops[tabstops.len()];
            let ranges = insert_ranges(&tabstop.ranges, insertion_starts);
            tabstops.push(SnippetTabstop { index: tabstop.index, ranges });
        }
        assert(snippet::tabstops_view(tabstops@) =~= expected.tabstops);
        Some(SnippetSession { tabstops, active: 0, instances: insertion_starts.len() })
    }

    /// Number of places at which the snippet was inserted.
    pub fn instance_count(&self) -> (count: usize)
        ensures
            count == session_model(*self).instances,
    {
        self.instances
    }

    /// The number of the active tab stop.
    pub fn active_tabstop_index(&self) -> (index: Option<u32>)
        ensures
            index == (if self.active < self.tabstops@.len() {
                Some(session_model(*self).tabstops[self.active as int].0)
            } else {
                None
            }),
    {
        if self.active < self.tabstops.len() {
            Some(self.tabstops[self.active].index)
        } else {
            None
        }
    }

    /// The range to edit of each insertion.
    pub fn active_ranges(&self) -> (ranges: Vec<Range<usize>>)
        ensures
            text::ranges_view(ranges@) == session_model(*self).active_ranges(),
    {
        let ghost model = session_model(*self);
        let mut ranges: Vec<Range<usize>> = Vec::new();
        if self.active >= self.tabstops.len() || self.instances == 0
            || self.tabstops[self.active].ranges.len() < self.instances {
            assert(text::ranges_view(ranges@) =~= Seq::<(int, int)>::empty());
            return ranges;
        }
        let places = &self.tabstops[self.active].ranges;
        let stride: usize = places.len() / self.instances;
        let ghost expected = model.active_ranges();
        assert(model.tabstops[model.active].1 == text::ranges_view(places@));
        while ranges.len() < self.instances
            invariant
                model == session_model(*self),
                model.has_active(),
                expected == model.active_ranges(),
                places == self.tabstops@[self.active as int].ranges,
                model.tabstops[model.active].1 == text::ranges_view(places@),
                stride == model.stride(),
                stride == places@.len() / self.instances as nat,
                self.instances > 0,
                ranges@.len() <= self.instances,
                forall|k: int|
                    0 <= k < ranges@.len() ==> ((#[trigger] ranges@[k]).start as int, ranges@[k].end as int)
                        == expected[k],
            decreases self.instances - ranges.len(),
        {
            let k: usize = ranges.len();
            proof {
                lemma_stride(places@.len() as int, self.instances as int, k as int);
                assert(places.len() == places@.len());
            }
            let at: usize = k * stride;
            assert(text::ranges_view(places@)[at as int] == (
                places@[at as int].start as int,
                places@[at as int].end as int,
            ));
            ranges.push(places[at].start..places[at].end);
        }
        assert(text::ranges_view(ranges@) =~= expected);
        ranges
    }

    /// The range to edit of the first insertion.
    pub fn active_range(&self) -> (range: Option<Range<usize>>)
        ensures
            ({
                let ranges = session_model(*self).active_ranges();
                match range {
                    Some(range) => ranges.len() > 0 && ranges[0] == (
                        range.start as int,
                        range.end as int,
                    ),
                    None => ranges.len() == 0,
                }
            }),
    {
        let ranges = self.active_ranges();
        if ranges.len() == 0 {
            None
        } else {
            assert(text::ranges_view(ranges@)[0] == (
                ranges@[0].start as int,
                ranges@[0].end as int,
            ));
            Some(ranges[0].start..ranges[0].end)
        }
    }

    /// Whether the active tab stop is the last one, number 0.
    pub fn active_is_final(&self) -> (last: bool)
        ensures
            last == (self.active < self.tabstops@.len() && session_model(
                *self,
            ).tabstops[self.active as int].0 == 0),
    {
        self.active < self.tabstops.len() && self.tabstops[self.active].index == 0
    }

    /// Goes to the next tab stop, where there is one.
    pub fn move_next(&mut self) -> (range: Option<Range<usize>>)
        ensures
            old(self).active + 1 >= old(self).tabstops@.len() ==> range is None && *final(self)
                == *old(self),
            old(self).active + 1 < old(self).tabstops@.len() ==> final(self).active == old(
                self,
            ).active + 1 && *final(self) == (SnippetSession {
                active: final(self).active,
                ..*old(self)
            }) && ({
                let ranges = session_model(*final(self)).active_ranges();
                match range {
                    Some(range) => ranges.len() > 0 && ranges[0] == (
                        range.start as int,
                        range.end as int,
                    ),
                    None => ranges.len() == 0,
                }
            }),
    {
        if self.active >= self.tabstops.len() || self.active + 1 >= self.tabstops.len() {
            return None;
        }
        self.active = self.active + 1;
        self.active_range()
    }

    /// Goes to the previous tab stop, where there is one.
    pub fn move_previous(&mut self) -> (range: Option<Range<usize>>)
        ensures
            *final(self) == (SnippetSession {
                active: if old(self).active == 0 {
                    0
                } else {
                    (old(self).active - 1) as usize
                },
                ..*old(self)
            }),
            ({
                let ranges = session_model(*final(self)).active_ranges();
                match range {
                    Some(range) => ranges.len() > 0 && ranges[0] == (
                        range.start as int,
                        range.end as int,
                    ),
                    None => ranges.len() == 0,
                }
            }),
    {
        if self.active > 0 {
            self.active = self.active - 1;
        }
        self.active_range()
    }

    /// Moves every range along with an edit; `special`, a range of the active
    /// tab stop, is the one in which it was made.
    fn follow_edit(&mut self, edit: &Range<usize>, inserted_len: usize, special: Option<usize>)
        ensures
            session_model(*final(self)) == session_model(*old(self)).after_edit(
                (edit.start as int, edit.end as int),
                inserted_len as int,
                match special {
                    Some(j) => Some(j as int),
                    None => None,
                },
            ),
    {
        let ghost model = session_model(*self);
        let ghost ev = (edit.start as int, edit.end as int);
        let ghost sp: Option<int> = match special {
            Some(j) => Some(j as int),
            None => None,
        };
        let ghost expected = model.after_edit(ev, inserted_len as int, sp);
        let mut tabstops: Vec<SnippetTabstop> = Vec::new();
        while tabstops.len() < self.tabstops.len()
            invariant
                *self == *old(self),
                model == session_model(*self),
                ev == (edit.start as int, edit.end as int),
                sp == (match special {
                    Some(j) => Some(j as int),
                    None => None,
                }),
                expected == model.after_edit(ev, inserted_len as int, sp),
                tabstops@.len() <= self.tabstops@.len(),
                forall|k: int|
                    0 <= k < tabstops@.len() ==> ((#[trigger] tabstops@[k]).index, text::ranges_view(
                        tabstops@[k].ranges@,
                    )) == expected.tabstops[k],
            decreases self.tabstops.len() - tabstops.len(),
        {
            let i: usize = tabstops.len();
            let places = &self.tabstops[i].ranges;
            let ghost pv = text::ranges_view(places@);
            let ghost wanted = expected.tabstops[i as int].1;
            assert(model.tabstops[i as int].1 == pv);
            let mut ranges: Vec<Range<usize>> = Vec::new();
            while ranges.len() < places.len()
                invariant
                    i < self.tabstops@.len(),
                    model == session_model(*self),
                    ev == (edit.start as int, edit.end as int),
                    sp == (match special {
                        Some(j) => Some(j as int),
                        None => None,
                    }),
                    places == self.tabstops@[i as int].ranges,
                    pv == text::ranges_view(places@),
                    model.tabstops[i as int].1 == pv,
                    wanted == model.after_edit(ev, inserted_len as int, sp).tabstops[i as int].1,
                    wanted.len() == pv.len(),
                    ranges@.len() <= places@.len(),
                    forall|k: int|
                        0 <= k < ranges@.len() ==> ((#[trigger] ranges@[k]).start as int, ranges@[k].end as int)
                            == wanted[k],
                decreases places.len() - ranges.len(),
            {
                let j: usize = ranges.len();
                assert(pv[j as int] == (places@[j as int].start as int, places@[j as int].end as int));
                let inside = i == self.active && (match special {
                    Some(special) => special == j,
                    None => false,
                });
                if inside {
                    ranges.push(grow(&places[j], edit, inserted_len));
                } else {
                    ranges.push(follow(&places[j], edit, inserted_len));
                }
            }
            assert(text::ranges_view(ranges@) =~= wanted);
            tabstops.push(SnippetTabstop { index: self.tabstops[i].index, ranges });
        }
        assert(snippet::tabstops_view(tabstops@) =~= expected.tabstops);
        self.tabstops = tabstops;
    }

    /// Track a user edit to the active placeholder. Editing anywhere else
    /// invalidates the session so stale tab stops can never mutate the buffer.
    pub fn track_user_edit(&mut self, edit: Range<usize>, inserted_len: usize) -> (inside: bool)
        ensures
            match session_model(*old(self)).after_user_edit(
                (edit.start as int, edit.end as int),
                inserted_len as int,
            ) {
                Some(model) => inside && session_model(*final(self)) == model,
                None => !inside && *final(self) == *old(self),
            },
    {
        let ghost model = session_model(*self);
        let ghost ev = (edit.start as int, edit.end as int);
        let ranges = self.active_ranges();
        let ghost rv = text::ranges_view(ranges@);
        let mut k: usize = 0;
        while k < ranges.len() && !(ranges[k].start <= edit.start && edit.end <= ranges[k].end)
            invariant
                *self == *old(self),
                model == session_model(*self),
                ev == (edit.start as int, edit.end as int),
                rv == text::ranges_view(ranges@),
                rv == model.active_ranges(),
                k <= ranges@.len(),
                ranges@.len() <= model.instances,
                model.edited_instance(ev, 0) == model.edited_instance(ev, k as int),
            decreases ranges.len() - k,
        {
            assert(rv[k as int] == (ranges@[k as int].start as int, ranges@[k as int].end as int));
            k = k + 1;
        }
        if k >= ranges.len() {
            return false;
        }
        assert(rv[k as int] == (ranges@[k as int].start as int, ranges@[k as int].end as int));
        assert(model.has_active());
        let count: usize = self.tabstops[self.active].ranges.len();
        let stride: usize = count / self.instances;
        proof {
            lemma_stride(count as int, self.instances as int, k as int);
        }
        self.follow_edit(&edit, inserted_len, Some(k * stride));
        true
    }

    /// Moves every range along with an edit that was made for the session.
    pub fn track_edit(&mut self, edit: Range<usize>, inserted_len: usize)
        ensures
            session_model(*final(self)) == session_model(*old(self)).after_edit(
                (edit.start as int, edit.end as int),
                inserted_len as int,
                None,
            ),
    {
        self.follow_edit(&edit, inserted_len, None);
    }

    /// The ranges of the first insertion that mirror the active one.
    pub fn active_mirrors(&self) -> (mirrors: Vec<Range<usize>>)
        ensures
            ({
                let model = session_model(*self);
                text::ranges_view(mirrors@) == if model.has_active() {
                    model.tabstops[model.active].1.subrange(1, model.stride())
                } else {
                    Seq::empty()
                }
            }),
    {
        let ghost model = session_model(*self);
        let mut mirrors: Vec<Range<usize>> = Vec::new();
        if self.active >= self.tabstops.len() || self.instances == 0
            || self.tabstops[self.active].ranges.len() < self.instances {
            assert(text::ranges_view(mirrors@) =~= Seq::<(int, int)>::empty());
            return mirrors;
        }
        let places = &self.tabstops[self.active].ranges;
        let ghost pv = text::ranges_view(places@);
        assert(model.tabstops[model.active].1 == pv);
        let stride: usize = places.len() / self.instances;
        proof {
            lemma_stride(places@.len() as int, self.instances as int, 0);
            lemma_stride(places@.len() as int, self.instances as int, self.instances - 1);
        }
        let mut j: usize = 1;
        assert(text::ranges_view(mirrors@) =~= pv.subrange(1, 1));
        while j < stride
            invariant
                1 <= j <= stride <= places@.len(),
                pv == text::ranges_view(places@),
                text::ranges_view(mirrors@) == pv.subrange(1, j as int),
            decreases stride - j,
        {
            let ghost held = mirrors@;
            mirrors.push(places[j].start..places[j].end);
            proof {
                assert(pv[j as int] == (places@[j as int].start as int, places@[j as int].end as int));
                assert(text::ranges_view(mirrors@) =~= text::ranges_view(held).push(
                    pv[j as int],
                ));
                assert(pv.subrange(1, j + 1) =~= pv.subrange(1, j as int).push(pv[j as int]));
            }
            j = j + 1;
        }
        mirrors
    }
}

proof fn lemma_stride(count: int, instances: int, k: int)
    requires
        0 < instances <= count,
        0 <= k < instances,
    ensures
        1 <= count / instances <= count,
        0 <= k * (count / instances) < count,
{
    let stride = count / instances;
    assert(stride >= 1 && stride <= count && stride * instances <= count) by (nonlinear_arith)
        requires
            0 < instances <= count,
            stride == count / instances,
    ;
    assert(k * stride < instances * stride && 0 <= k * stride) by (nonlinear_arith)
        requires
            0 <= k < instances,
            stride >= 1,
    ;
    assert(instances * stride == stride * instances) by (nonlinear_arith);
}

} // verus!
