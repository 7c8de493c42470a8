//! Folding of line ranges.

use crate::multi_cursor as cursors;
use crate::cursor;
use crate::cursor::EditorSelection;
use crate::order;
use crate::state;
use crate::state::InputState;
use crate::text;
use vstd::prelude::*;

verus! {

pub const MAX_FOLDING_SNAPSHOT_RANGES: usize = 256;

/// A range of lines that folds into its first one.
#[derive(Debug, Copy, Clone, PartialEq, Eq, Structural)]
pub struct FoldRange {
    pub start_line: usize,
    pub end_line: usize,
}

impl FoldRange {
    pub fn new(start_line: usize, end_line: usize) -> (range: Self)
        ensures
            range.start_line == start_line,
            range.end_line == end_line,
    {
        FoldRange { start_line, end_line }
    }

    pub open spec fn has_line(self, line: int) -> bool {
        self.start_line <= line <= self.end_line
    }
}

/// Bounded, framework-neutral folding state for menus, commands, and debug tools.
#[derive(Clone, Debug, PartialEq, Eq)]
pub struct EditorFoldingSnapshot {
    pub enabled: bool,
    pub candidate_count: usize,
    pub folded_count: usize,
    pub folded_ranges: Vec<FoldRange>,
    pub truncated: bool,
    pub can_fold: bool,
    pub can_unfold: bool,
    pub can_fold_all: bool,
    pub can_unfold_all: bool,
}

/// Whether a folded range starts at `line`.
pub open spec fn starts_fold(folded: Seq<FoldRange>, line: usize) -> bool {
    exists|i: int| 0 <= i < folded.len() && (#[trigger] folded[i]).start_line == line
}

/// Of the first `n` candidates that hold the line and are not folded, the one
/// that starts last.
pub open spec fn fold_candidate(
    line: int,
    candidates: Seq<FoldRange>,
    folded: Seq<FoldRange>,
    n: int,
) -> Option<FoldRange>
    decreases n,
{
    if n <= 0 {
        None
    } else {
        let best = fold_candidate(line, candidates, folded, n - 1);
        let next = candidates[n - 1];
        if next.has_line(line) && !starts_fold(folded, next.start_line) && (match best {
            Some(range) => range.start_line <= next.start_line,
            None => true,
        }) {
            Some(next)
        } else {
            best
        }
    }
}

/// Of the first `n` folded ranges that hold the line, the one that starts last.
pub open spec fn unfold_candidate(line: int, folded: Seq<FoldRange>, n: int) -> Option<FoldRange> {
    fold_candidate(line, folded, Seq::empty(), n)
}

/// Whether a folded range starts at `line`.
fn check_starts_fold(folded: &[FoldRange], line: usize) -> (found: bool)
    ensures
        found == starts_fold(folded@, line),
{
    let mut i: usize = 0;
    while i < folded.len()
        invariant
            i <= folded@.len(),
            forall|k: int| 0 <= k < i ==> (#[trigger] folded@[k]).start_line != line,
        decreases folded.len() - i,
    {
        if folded[i].start_line == line {
            assert(folded@[i as int].start_line == line);
            return true;
        }
        i = i + 1;
    }
    false
}

/// The innermost range around `line` that is not folded yet.
pub fn fold_candidate_for_line(
    line: usize,
    candidates: &[FoldRange],
    folded: &[FoldRange],
) -> (found: Option<FoldRange>)
    ensures
        found == fold_candidate(line as int, candidates@, folded@, candidates@.len() as int),
{
    let mut best: Option<FoldRange> = None;
    let mut i: usize = 0;
    while i < candidates.len()
        invariant
            i <= candidates@.len(),
            best == fold_candidate(line as int, candidates@, folded@, i as int),
        decreases candidates.len() - i,
    {
        let next = candidates[i];
        if next.start_line <= line && line <= next.end_line && !check_starts_fold(
            folded,
            next.start_line,
        ) {
            let later = match best {
                Some(range) => range.start_line <= next.start_line,
                None => true,
            };
            if later {
                best = Some(next);
            }
        }
        i = i + 1;
    }
    best
}

/// The innermost folded range around `line`.
pub fn unfold_candidate_for_line(line: usize, folded: &[FoldRange]) -> (found: Option<FoldRange>)
    ensures
        found == unfold_candidate(line as int, folded@, folded@.len() as int),
{
    let mut best: Option<FoldRange> = None;
    let mut i: usize = 0;
    while i < folded.len()
        invariant
            i <= folded@.len(),
            best == unfold_candidate(line as int, folded@, i as int),
        decreases folded.len() - i,
    {
        let next = folded[i];
        assert(!starts_fold(Seq::empty(), next.start_line));
        if next.start_line <= line && line <= next.end_line {
            let later = match best {
                Some(range) => range.start_line <= next.start_line,
                None => true,
            };
            if later {
                best = Some(next);
            }
        }
        i = i + 1;
    }
    best
}

/// What is found is a candidate around the line that is not folded, and no
/// other such candidate starts after it; where there is one, one is found.
pub proof fn law_fold_candidate_is_innermost(
    line: int,
    candidates: Seq<FoldRange>,
    folded: Seq<FoldRange>,
    n: int,
)
    requires
        0 <= n <= candidates.len(),
    ensures
        match fold_candidate(line, candidates, folded, n) {
            Some(range) => {
                &&& range.has_line(line)
                &&& !starts_fold(folded, range.start_line)
                &&& exists|i: int| 0 <= i < n && #[trigger] candidates[i] == range
                &&& forall|i: int|
                    #![trigger candidates[i]]
                    0 <= i < n && candidates[i].has_line(line) && !starts_fold(
                        folded,
                        candidates[i].start_line,
                    ) ==> candidates[i].start_line <= range.start_line
            },
            None => forall|i: int|
                #![trigger candidates[i]]
                0 <= i < n ==> !(candidates[i].has_line(line) && !starts_fold(
                    folded,
                    candidates[i].start_line,
                )),
        },
    decreases n,
{
    if n > 0 {
        law_fold_candidate_is_innermost(line, candidates, folded, n - 1);
        let next = candidates[n - 1];
        assert(candidates[n - 1] == next);
    }
}

/// The rows of the carets of the first `n` selections, ascending.
pub open spec fn caret_rows(t: Seq<u8>, selections: Seq<EditorSelection>, n: int) -> Seq<int>
    decreases n,
{
    if n <= 0 {
        Seq::empty()
    } else {
        order::with_key(
            caret_rows(t, selections, n - 1),
            text::row_at(t, selections[n - 1].spec_head() as int),
        )
    }
}

/// The first lines of what is to be folded for the first `n` rows, ascending.
pub open spec fn fold_targets(
    rows: Seq<int>,
    candidates: Seq<FoldRange>,
    folded: Seq<FoldRange>,
    n: int,
) -> Seq<int>
    decreases n,
{
    if n <= 0 {
        Seq::empty()
    } else {
        let before = fold_targets(rows, candidates, folded, n - 1);
        match fold_candidate(rows[n - 1], candidates, folded, candidates.len() as int) {
            Some(range) => order::with_key(before, range.start_line as int),
            None => before,
        }
    }
}

/// The first lines of what is to be unfolded for the first `n` rows, ascending.
pub open spec fn unfold_targets(rows: Seq<int>, folded: Seq<FoldRange>, n: int) -> Seq<int> {
    fold_targets(rows, folded, Seq::empty(), n)
}

/// Number of the first `n` folded ranges to keep in front of one that starts
/// at `line`.
pub open spec fn fold_position(folded: Seq<FoldRange>, line: int, n: int) -> int
    decreases n,
{
    if n <= 0 {
        0
    } else if folded[n - 1].start_line <= line {
        n
    } else {
        fold_position(folded, line, n - 1)
    }
}

/// The first candidate from `from` on that starts at `line`.
pub open spec fn candidate_at(candidates: Seq<FoldRange>, line: int, from: int) -> Option<FoldRange>
    decreases candidates.len() - from,
{
    if from < 0 || from >= candidates.len() {
        None
    } else if candidates[from].start_line == line {
        Some(candidates[from])
    } else {
        candidate_at(candidates, line, from + 1)
    }
}

/// The folded ranges once the candidates that start at the first `n` targets
/// are folded too, in the order of their first lines.
pub open spec fn with_folds(
    candidates: Seq<FoldRange>,
    folded: Seq<FoldRange>,
    targets: Seq<int>,
    n: int,
) -> Seq<FoldRange>
    decreases n,
{
    if n <= 0 {
        folded
    } else {
        let before = with_folds(candidates, folded, targets, n - 1);
        match candidate_at(candidates, targets[n - 1], 0) {
            Some(range) => before.insert(
                fold_position(before, targets[n - 1], before.len() as int),
                range,
            ),
            None => before,
        }
    }
}

/// The first `n` folded ranges without those that start at a target.
pub open spec fn without_folds(folded: Seq<FoldRange>, targets: Seq<int>, n: int) -> Seq<FoldRange>
    decreases n,
{
    if n <= 0 {
        Seq::empty()
    } else {
        let before = without_folds(folded, targets, n - 1);
        if targets.contains(folded[n - 1].start_line as int) {
            before
        } else {
            before.push(folded[n - 1])
        }
    }
}

proof fn lemma_fold_position(folded: Seq<FoldRange>, line: int, n: int)
    requires
        0 <= n <= folded.len(),
    ensures
        0 <= fold_position(folded, line, n) <= n,
    decreases n,
{
    if n > 0 {
        lemma_fold_position(folded, line, n - 1);
    }
}

/// Whether two lists of ranges are the same.
fn same_ranges(a: &Vec<FoldRange>, b: &Vec<FoldRange>) -> (same: bool)
    ensures
        same == (a@ == b@),
{
    if a.len() != b.len() {
        return false;
    }
    let mut i: usize = 0;
    while i < a.len()
        invariant
            i <= a@.len(),
            a@.len() == b@.len(),
            forall|k: int| 0 <= k < i ==> a@[k] == b@[k],
        decreases a.len() - i,
    {
        if a[i] != b[i] {
            return false;
        }
        i = i + 1;
    }
    assert(a@ =~= b@);
    true
}

/// The first `n` ranges, or all of them where there are fewer.
fn copy_ranges(ranges: &Vec<FoldRange>, n: usize) -> (copy: Vec<FoldRange>)
    ensures
        copy@ == ranges@.subrange(
            0,
            if ranges@.len() < n {
                ranges@.len() as int
            } else {
                n as int
            },
        ),
{
    let mut copy: Vec<FoldRange> = Vec::new();
    while copy.len() < ranges.len() && copy.len() < n
        invariant
            copy@.len() <= ranges@.len(),
            copy@.len() <= n,
            copy@ == ranges@.subrange(0, copy@.len() as int),
        decreases ranges.len() - copy.len(),
    {
        let ghost k = copy@.len() as int;
        copy.push(ranges[copy.len()]);
        assert(copy@ =~= ranges@.subrange(0, k + 1));
    }
    copy
}

/// Whether a row of the first `n` has something to fold.
pub open spec fn any_fold(
    rows: Seq<int>,
    candidates: Seq<FoldRange>,
    folded: Seq<FoldRange>,
) -> bool {
    exists|i: int|
        0 <= i < rows.len() && fold_candidate(
            #[trigger] rows[i],
            candidates,
            folded,
            candidates.len() as int,
        ) is Some
}

fn check_any_fold(rows: &Vec<usize>, candidates: &[FoldRange], folded: &[FoldRange]) -> (any: bool)
    ensures
        any == any_fold(order::indices_view(rows@), candidates@, folded@),
{
    let ghost rv = order::indices_view(rows@);
    let mut i: usize = 0;
    while i < rows.len()
        invariant
            i <= rows@.len(),
            rv == order::indices_view(rows@),
            forall|k: int|
                0 <= k < i ==> fold_candidate(
                    #[trigger] rv[k],
                    candidates@,
                    folded@,
                    candidates@.len() as int,
                ) is None,
        decreases rows.len() - i,
    {
        assert(rv[i as int] == rows@[i as int]);
        if fold_candidate_for_line(rows[i], candidates, folded).is_some() {
            return true;
        }
        i = i + 1;
    }
    false
}

impl InputState {
    /// The rows of the carets, ascending.
    pub open spec fn spec_caret_rows(&self) -> Seq<int> {
        caret_rows(self.bytes(), self.all_selections(), self.all_selections().len() as int)
    }

    /// The rows that hold a caret, ascending and each once.
    pub(crate) fn active_selection_rows(&self) -> (rows: Vec<usize>)
        ensures
            order::indices_view(rows@) == self.spec_caret_rows(),
    {
        let document = self.document();
        let selections = self.selections();
        let ghost t = self.bytes();
        let mut rows: Vec<usize> = Vec::new();
        let mut i: usize = 0;
        assert(order::indices_view(rows@) =~= caret_rows(t, selections@, 0));
        while i < selections.len()
            invariant
                i <= selections@.len(),
                document.wf(),
                document.bytes() == t,
                order::indices_view(rows@) == caret_rows(t, selections@, i as int),
                order::is_ascending(order::indices_view(rows@)),
            decreases selections.len() - i,
        {
            let row: usize = document.offset_to_point(selections[i].head()).row;
            order::insert_key(&mut rows, row);
            i = i + 1;
        }
        rows
    }

    /// The first lines of the ranges to fold for the carets.
    fn collect_targets(
        rows: &Vec<usize>,
        candidates: &Vec<FoldRange>,
        folded: &Vec<FoldRange>,
    ) -> (targets: Vec<usize>)
        ensures
            order::indices_view(targets@) == fold_targets(
                order::indices_view(rows@),
                candidates@,
                folded@,
                rows@.len() as int,
            ),
    {
        let ghost rv = order::indices_view(rows@);
        let mut targets: Vec<usize> = Vec::new();
        let mut i: usize = 0;
        assert(order::indices_view(targets@) =~= fold_targets(rv, candidates@, folded@, 0));
        while i < rows.len()
            invariant
                i <= rows@.len(),
                rv == order::indices_view(rows@),
                order::indices_view(targets@) == fold_targets(
                    rv,
                    candidates@,
                    folded@,
                    i as int,
                ),
                order::is_ascending(order::indices_view(targets@)),
            decreases rows.len() - i,
        {
            assert(rv[i as int] == rows@[i as int]);
            match fold_candidate_for_line(
                rows[i],
                candidates.as_slice(),
                folded.as_slice(),
            ) {
                Some(range) => {
                    order::insert_key(&mut targets, range.start_line);
                },
                None => {},
            }
            i = i + 1;
        }
        targets
    }

    /// Fold the innermost unfolded range containing each active caret.
    /// Repeating the command folds the next unfolded parent range.
    pub fn fold_at_selections(&mut self) -> (changed: bool)
        ensures
            ({
                let rows = old(self).spec_caret_rows();
                let targets = fold_targets(
                    rows,
                    old(self).fold_candidates@,
                    old(self).folded_ranges@,
                    rows.len() as int,
                );
                let enabled = !old(self).disabled && old(self).mode.spec_is_folding();
                &&& changed == (enabled && targets.len() > 0)
                &&& final(self).folded_ranges@ == if changed {
                    with_folds(
                        old(self).fold_candidates@,
                        old(self).folded_ranges@,
                        targets,
                        targets.len() as int,
                    )
                } else {
                    old(self).folded_ranges@
                }
                &&& *final(self) == (InputState {
                    folded_ranges: final(self).folded_ranges,
                    ..*old(self)
                })
            }),
    {
        if self.disabled || !self.mode.is_folding() {
            return false;
        }
        let rows = self.active_selection_rows();
        let targets = Self::collect_targets(&rows, &self.fold_candidates, &self.folded_ranges);
        if targets.len() == 0 {
            return false;
        }
        let ghost tv = order::indices_view(targets@);
        let ghost candidates = self.fold_candidates@;
        let ghost before = self.folded_ranges@;
        let mut folded = copy_ranges(&self.folded_ranges, self.folded_ranges.len());
        assert(folded@ =~= before);
        let mut n: usize = 0;
        while n < targets.len()
            invariant
                n <= targets@.len(),
                tv == order::indices_view(targets@),
                candidates == self.fold_candidates@,
                *self == *old(self),
                folded@ == with_folds(candidates, before, tv, n as int),
            decreases targets.len() - n,
        {
            let line: usize = targets[n];
            assert(tv[n as int] == line);
            let mut c: usize = 0;
            while c < self.fold_candidates.len() && self.fold_candidates[c].start_line != line
                invariant
                    c <= self.fold_candidates@.len(),
                    candidates == self.fold_candidates@,
                    *self == *old(self),
                    candidate_at(candidates, line as int, 0) == candidate_at(
                        candidates,
                        line as int,
                        c as int,
                    ),
                decreases self.fold_candidates.len() - c,
            {
                c = c + 1;
            }
            if c < self.fold_candidates.len() {
                let mut at: usize = folded.len();
                while at > 0 && folded[at - 1].start_line > line
                    invariant
                        at <= folded@.len(),
                        fold_position(folded@, line as int, folded@.len() as int)
                            == fold_position(folded@, line as int, at as int),
                    decreases at,
                {
                    at = at - 1;
                }
                folded.insert(at, self.fold_candidates[c]);
            }
            n = n + 1;
        }
        self.folded_ranges = folded;
        true
    }

    /// Unfold the innermost folded range containing each active caret.
    pub fn unfold_at_selections(&mut self) -> (changed: bool)
        ensures
            ({
                let rows = old(self).spec_caret_rows();
                let targets = unfold_targets(rows, old(self).folded_ranges@, rows.len() as int);
                let enabled = !old(self).disabled && old(self).mode.spec_is_folding();
                &&& changed == (enabled && targets.len() > 0)
                &&& final(self).folded_ranges@ == if changed {
                    without_folds(
                        old(self).folded_ranges@,
                        targets,
                        old(self).folded_ranges@.len() as int,
                    )
                } else {
                    old(self).folded_ranges@
                }
                &&& *final(self) == (InputState {
                    folded_ranges: final(self).folded_ranges,
                    ..*old(self)
                })
            }),
    {
        if self.disabled || !self.mode.is_folding() {
            return false;
        }
        let rows = self.active_selection_rows();
        let none: Vec<FoldRange> = Vec::new();
        assert(none@ =~= Seq::<FoldRange>::empty());
        let targets = Self::collect_targets(&rows, &self.folded_ranges, &none);
        if targets.len() == 0 {
            return false;
        }
        let ghost tv = order::indices_view(targets@);
        let ghost before = self.folded_ranges@;
        let mut folded: Vec<FoldRange> = Vec::new();
        let mut n: usize = 0;
        assert(folded@ =~= without_folds(before, tv, 0));
        while n < self.folded_ranges.len()
            invariant
                n <= self.folded_ranges@.len(),
                tv == order::indices_view(targets@),
                before == self.folded_ranges@,
                *self == *old(self),
                folded@ == without_folds(before, tv, n as int),
            decreases self.folded_ranges.len() - n,
        {
            let range = self.folded_ranges[n];
            let mut i: usize = 0;
            while i < targets.len() && targets[i] != range.start_line
                invariant
                    i <= targets@.len(),
                    forall|k: int| 0 <= k < i ==> targets@[k] != range.start_line,
                decreases targets.len() - i,
            {
                i = i + 1;
            }
            proof {
                if i < targets@.len() {
                    assert(tv[i as int] == range.start_line);
                } else if tv.contains(range.start_line as int) {
                    let k = choose|k: int| 0 <= k < tv.len() && tv[k] == range.start_line;
                    assert(targets@[k] == range.start_line);
                }
            }
            if i >= targets.len() {
                folded.push(range);
            }
            n = n + 1;
        }
        self.folded_ranges = folded;
        true
    }

    /// Fold every current syntax- and LSP-provided range.
    pub fn fold_all(&mut self) -> (changed: bool)
        ensures
            changed == (!old(self).disabled && old(self).mode.spec_is_folding() && old(
                self,
            ).fold_candidates@ != old(self).folded_ranges@),
            final(self).folded_ranges@ == if changed {
                old(self).fold_candidates@
            } else {
                old(self).folded_ranges@
            },
            *final(self) == (InputState {
                folded_ranges: final(self).folded_ranges,
                ..*old(self)
            }),
    {
        if self.disabled || !self.mode.is_folding() || same_ranges(
            &self.fold_candidates,
            &self.folded_ranges,
        ) {
            return false;
        }
        self.folded_ranges = copy_ranges(&self.fold_candidates, self.fold_candidates.len());
        assert(self.folded_ranges@ =~= old(self).fold_candidates@);
        true
    }

    /// Unfold every current range.
    pub fn unfold_all(&mut self) -> (changed: bool)
        ensures
            changed == (!old(self).disabled && old(self).mode.spec_is_folding() && old(
                self,
            ).folded_ranges@.len() > 0),
            final(self).folded_ranges@ == if changed {
                Seq::empty()
            } else {
                old(self).folded_ranges@
            },
            *final(self) == (InputState {
                folded_ranges: final(self).folded_ranges,
                ..*old(self)
            }),
    {
        if self.disabled || !self.mode.is_folding() || self.folded_ranges.len() == 0 {
            return false;
        }
        self.folded_ranges = Vec::new();
        true
    }

    /// Return bounded folding state suitable for host UI and automation.
    pub fn folding_snapshot(&self) -> (snapshot: EditorFoldingSnapshot)
        ensures
            snapshot.enabled == (!self.disabled && self.mode.spec_is_folding()),
            snapshot.candidate_count == self.fold_candidates@.len(),
            snapshot.folded_count == self.folded_ranges@.len(),
            snapshot.folded_ranges@ == self.folded_ranges@.subrange(
                0,
                if self.folded_ranges@.len() < MAX_FOLDING_SNAPSHOT_RANGES {
                    self.folded_ranges@.len() as int
                } else {
                    MAX_FOLDING_SNAPSHOT_RANGES as int
                },
            ),
            snapshot.truncated == (self.folded_ranges@.len() > MAX_FOLDING_SNAPSHOT_RANGES),
            snapshot.can_fold == (snapshot.enabled && any_fold(
                self.spec_caret_rows(),
                self.fold_candidates@,
                self.folded_ranges@,
            )),
            snapshot.can_unfold == (snapshot.enabled && any_fold(
                self.spec_caret_rows(),
                self.folded_ranges@,
                Seq::empty(),
            )),
            snapshot.can_fold_all == (snapshot.enabled && self.fold_candidates@
                != self.folded_ranges@),
            snapshot.can_unfold_all == (snapshot.enabled && self.folded_ranges@.len() > 0),
    {
        let enabled = !self.disabled && self.mode.is_folding();
        let rows = self.active_selection_rows();
        let folded_ranges = copy_ranges(&self.folded_ranges, MAX_FOLDING_SNAPSHOT_RANGES);
        let none: Vec<FoldRange> = Vec::new();
        assert(none@ =~= Seq::<FoldRange>::empty());
        EditorFoldingSnapshot {
            enabled,
            candidate_count: self.fold_candidates.len(),
            folded_count: self.folded_ranges.len(),
            truncated: folded_ranges.len() < self.folded_ranges.len(),
            folded_ranges,
            can_fold: enabled && check_any_fold(
                &rows,
                self.fold_candidates.as_slice(),
                self.folded_ranges.as_slice(),
            ),
            can_unfold: enabled && check_any_fold(
                &rows,
                self.folded_ranges.as_slice(),
                none.as_slice(),
            ),
            can_fold_all: enabled && !same_ranges(&self.fold_candidates, &self.folded_ranges),
            can_unfold_all: enabled && self.folded_ranges.len() > 0,
        }
    }

    /// Moves the selections to offsets that are still visible: `visible` gives
    /// the anchor and the head of each selection, clamped to what folding left
    /// in view. Returns whether a selection moved.
    pub fn reconcile_selections_after_folding(&mut self, visible: &Vec<(usize, usize)>) -> (changed:
        bool)
        requires
            old(self).wf(),
        ensures
            ({
                let adjusted = Seq::new(
                    visible@.len(),
                    |i: int| cursor::spec_from_anchor_and_head(visible@[i].0, visible@[i].1),
                );
                &&& changed == (adjusted != old(self).all_selections())
                &&& final(self).all_selections() == if changed {
                    cursors::normalized(old(self).bytes(), adjusted, old(self).primary())
                } else {
                    old(self).all_selections()
                }
                &&& changed ==> final(self).snippet_session is None
                &&& !changed ==> final(self).snippet_session == old(self).snippet_session
            }),
            final(self).wf(),
            state::keeps_text(*old(self), *final(self), changed),
    {
        let mut adjusted: Vec<EditorSelection> = Vec::new();
        let mut i: usize = 0;
        while i < visible.len()
            invariant
                i <= visible@.len(),
                adjusted@.len() == i,
                forall|k: int|
                    0 <= k < i ==> #[trigger] adjusted@[k] == cursor::spec_from_anchor_and_head(
                        visible@[k].0,
                        visible@[k].1,
                    ),
            decreases visible.len() - i,
        {
            adjusted.push(EditorSelection::from_anchor_and_head(visible[i].0, visible[i].1));
            i = i + 1;
        }
        assert(adjusted@ =~= Seq::new(
            visible@.len(),
            |i: int| cursor::spec_from_anchor_and_head(visible@[i].0, visible@[i].1),
        ));
        let current = self.selections();
        if cursors::same_selections(&adjusted, &current) {
            return false;
        }
        self.set_editor_selections(adjusted);
        true
    }
}

/// What is to be folded for the first `n` rows: something where one of them has
/// a candidate, and only where a candidate starts.
proof fn lemma_fold_targets(
    rows: Seq<int>,
    candidates: Seq<FoldRange>,
    folded: Seq<FoldRange>,
    n: int,
)
    requires
        0 <= n <= rows.len(),
    ensures
        order::is_ascending(fold_targets(rows, candidates, folded, n)),
        fold_targets(rows, candidates, folded, n).len() > 0 <==> exists|i: int|
            0 <= i < n && fold_candidate(
                #[trigger] rows[i],
                candidates,
                folded,
                candidates.len() as int,
            ) is Some,
        forall|line: int| #[trigger]
            fold_targets(rows, candidates, folded, n).contains(line) ==> starts_range(
                candidates,
                line,
            ),
    decreases n,
{
    if n > 0 {
        lemma_fold_targets(rows, candidates, folded, n - 1);
        let before = fold_targets(rows, candidates, folded, n - 1);
        let count = candidates.len() as int;
        match fold_candidate(rows[n - 1], candidates, folded, count) {
            Some(range) => {
                order::lemma_with_key(before, range.start_line as int);
                let after = order::with_key(before, range.start_line as int);
                assert(after.contains(range.start_line as int));
                law_fold_candidate_is_innermost(rows[n - 1], candidates, folded, count);
                let k = choose|k: int| 0 <= k < count && #[trigger] candidates[k] == range;
                assert(starts_range(candidates, range.start_line as int)) by {
                    assert(candidates[k].start_line == range.start_line);
                }
            },
            None => {},
        }
    }
}

/// Some range starts at the line.
spec fn starts_range(ranges: Seq<FoldRange>, line: int) -> bool {
    exists|k: int| 0 <= k < ranges.len() && (#[trigger] ranges[k]).start_line == line
}

proof fn lemma_candidate_at(candidates: Seq<FoldRange>, line: int, from: int, k: int)
    requires
        0 <= from <= k < candidates.len(),
        candidates[k].start_line == line,
    ensures
        candidate_at(candidates, line, from) is Some,
    decreases k - from,
{
    if candidates[from].start_line != line {
        lemma_candidate_at(candidates, line, from + 1, k);
    }
}

proof fn lemma_with_folds(
    candidates: Seq<FoldRange>,
    folded: Seq<FoldRange>,
    targets: Seq<int>,
    n: int,
)
    requires
        0 <= n <= targets.len(),
        forall|i: int| #![trigger targets[i]] 0 <= i < n ==> starts_range(candidates, targets[i]),
    ensures
        with_folds(candidates, folded, targets, n).len() == folded.len() + n,
    decreases n,
{
    if n > 0 {
        lemma_with_folds(candidates, folded, targets, n - 1);
        let before = with_folds(candidates, folded, targets, n - 1);
        let line = targets[n - 1];
        let k = choose|k: int|
            0 <= k < candidates.len() && (#[trigger] candidates[k]).start_line == line;
        lemma_candidate_at(candidates, line, 0, k);
        lemma_fold_position(before, line, before.len() as int);
    }
}

/// Folding is on offer where a caret has something to fold, and then it folds
/// one range for each target; it changes nothing where it is not on offer.
pub proof fn law_can_fold_is_what_folding_does(
    rows: Seq<int>,
    candidates: Seq<FoldRange>,
    folded: Seq<FoldRange>,
)
    ensures
        ({
            let targets = fold_targets(rows, candidates, folded, rows.len() as int);
            let after = with_folds(candidates, folded, targets, targets.len() as int);
            &&& any_fold(rows, candidates, folded) <==> targets.len() > 0
            &&& any_fold(rows, candidates, folded) <==> after != folded
            &&& after.len() == folded.len() + targets.len()
        }),
{
    let n = rows.len() as int;
    lemma_fold_targets(rows, candidates, folded, n);
    let targets = fold_targets(rows, candidates, folded, n);
    assert forall|i: int| #![trigger targets[i]] 0 <= i < targets.len() implies starts_range(
        candidates,
        targets[i],
    ) by {
        assert(targets.contains(targets[i]));
    }
    lemma_with_folds(candidates, folded, targets, targets.len() as int);
}

proof fn lemma_without_folds(folded: Seq<FoldRange>, targets: Seq<int>, n: int)
    requires
        0 <= n <= folded.len(),
    ensures
        without_folds(folded, targets, n).len() <= n,
        without_folds(folded, targets, n).len() < n <==> exists|k: int|
            0 <= k < n && targets.contains((#[trigger] folded[k]).start_line as int),
    decreases n,
{
    if n > 0 {
        lemma_without_folds(folded, targets, n - 1);
    }
}

/// Unfolding is on offer where a caret lies in a folded range, and then some
/// range is unfolded; it changes nothing where it is not on offer.
pub proof fn law_can_unfold_is_what_unfolding_does(rows: Seq<int>, folded: Seq<FoldRange>)
    ensures
        ({
            let targets = unfold_targets(rows, folded, rows.len() as int);
            let after = without_folds(folded, targets, folded.len() as int);
            &&& any_fold(rows, folded, Seq::empty()) <==> targets.len() > 0
            &&& any_fold(rows, folded, Seq::empty()) <==> after.len() < folded.len()
        }),
{
    let n = rows.len() as int;
    lemma_fold_targets(rows, folded, Seq::empty(), n);
    let targets = unfold_targets(rows, folded, n);
    lemma_without_folds(folded, targets, folded.len() as int);
    if targets.len() > 0 {
        assert(targets.contains(targets[0]));
        assert(starts_range(folded, targets[0]));
        let k = choose|k: int|
            0 <= k < folded.len() && (#[trigger] folded[k]).start_line == targets[0];
        assert(targets.contains(folded[k].start_line as int));
    }
}

/// Once every candidate is folded, no line has anything left to fold.
pub proof fn law_nothing_left_to_fold(candidates: Seq<FoldRange>, rows: Seq<int>)
    ensures
        !any_fold(rows, candidates, candidates),
{
    assert forall|i: int| 0 <= i < rows.len() implies fold_candidate(
        #[trigger] rows[i],
        candidates,
        candidates,
        candidates.len() as int,
    ) is None by {
        law_fold_candidate_is_innermost(rows[i], candidates, candidates, candidates.len() as int);
        match fold_candidate(rows[i], candidates, candidates, candidates.len() as int) {
            Some(range) => {
                let k = choose|k: int| 0 <= k < candidates.len() && candidates[k] == range;
                assert(candidates[k].start_line == range.start_line);
            },
            None => {},
        }
    }
}

} // verus!
