//! Folding ranges that a server gives.

use crate::chars;
use crate::folding::FoldRange;
use crate::lsp::items;
use crate::lsp::Lsp;
use crate::order;
use crate::rope;
use crate::state::InputState;
use crate::text;
use crate::text::Document;
use ropey::Rope;
use vstd::prelude::*;
use vstd::utf8::*;

verus! {

pub const MAX_FOLDING_RANGES: usize = 20_000;

/// The line numbers of a part of the text that can be folded.
#[derive(Debug, Copy, Clone, PartialEq, Eq, Structural)]
pub struct FoldingRange {
    pub start_line: u32,
    pub end_line: u32,
}

/// The first `n` ranges that lie in the text and have more than one line.
pub open spec fn foldable(t: Seq<u8>, ranges: Seq<FoldingRange>, n: int) -> Seq<FoldRange>
    decreases n,
{
    if n <= 0 {
        Seq::empty()
    } else {
        let range = ranges[n - 1];
        if range.start_line < range.end_line < text::line_count(t) {
            foldable(t, ranges, n - 1).push(
                FoldRange {
                    start_line: range.start_line as usize,
                    end_line: range.end_line as usize,
                },
            )
        } else {
            foldable(t, ranges, n - 1)
        }
    }
}

pub open spec fn fold_keys(ranges: Seq<FoldRange>) -> Seq<(int, int)> {
    Seq::new(ranges.len(), |i: int| (ranges[i].start_line as int, ranges[i].end_line as int))
}

/// The first `n` ranges without those that equal the one before.
pub open spec fn without_repeats(ranges: Seq<FoldRange>, n: int) -> Seq<FoldRange>
    decreases n,
{
    if n <= 0 {
        Seq::empty()
    } else if n > 1 && ranges[n - 1] == ranges[n - 2] {
        without_repeats(ranges, n - 1)
    } else {
        without_repeats(ranges, n - 1).push(ranges[n - 1])
    }
}

/// The ranges by their lines, each once.
pub open spec fn normal_folds(t: Seq<u8>, ranges: Seq<FoldingRange>) -> Seq<FoldRange> {
    let kept = foldable(
        t,
        ranges,
        if ranges.len() < MAX_FOLDING_RANGES {
            ranges.len() as int
        } else {
            MAX_FOLDING_RANGES as int
        },
    );
    let sorted = items::picked(kept, order::sorted_order(fold_keys(kept), kept.len() as int));
    without_repeats(sorted, sorted.len() as int)
}

/// The ranges by their lines, each once.
pub fn normalize_folding_ranges(document: &Document, ranges: &Vec<FoldingRange>) -> (folds: Vec<
    FoldRange,
>)
    requires
        document.wf(),
    ensures
        folds@ == normal_folds(document.bytes(), ranges@),
{
    let ghost t = document.bytes();
    let count: usize = document.lines_len();
    let total: usize = if ranges.len() < MAX_FOLDING_RANGES {
        ranges.len()
    } else {
        MAX_FOLDING_RANGES
    };
    let mut kept: Vec<FoldRange> = Vec::new();
    let mut keys: Vec<(usize, usize)> = Vec::new();
    let mut i: usize = 0;
    while i < total
        invariant
            i <= total <= ranges@.len(),
            count == text::line_count(t),
            kept@ == foldable(t, ranges@, i as int),
            order::keys_view(keys@) =~= fold_keys(kept@),
        decreases total - i,
    {
        let start: usize = ranges[i].start_line as usize;
        let end: usize = ranges[i].end_line as usize;
        if start < end && end < count {
            let ghost key = (start as int, end as int);
            let ghost folds_before = kept@;
            let ghost keys_before = keys@;
            kept.push(FoldRange { start_line: start, end_line: end });
            keys.push((start, end));
            assert(fold_keys(kept@) =~= fold_keys(folds_before).push(key));
            assert(order::keys_view(keys@) =~= order::keys_view(keys_before).push(key));
        }
        i = i + 1;
    }
    let sorted = order::stable_order(&keys);
    let ghost view = order::indices_view(sorted@);
    let ghost all = items::picked(kept@, view);
    let mut folds: Vec<FoldRange> = Vec::new();
    let mut k: usize = 0;
    while k < sorted.len()
        invariant
            k <= sorted@.len(),
            view == order::indices_view(sorted@),
            all == items::picked(kept@, view),
            forall|j: int| 0 <= j < sorted@.len() ==> #[trigger] sorted@[j] < kept@.len(),
            folds@ == without_repeats(all, k as int),
        decreases sorted.len() - k,
    {
        let range = kept[sorted[k]];
        assert(all[k as int] == range);
        let repeated = if k > 0 {
            assert(all[k - 1] == kept@[sorted@[k - 1] as int]);
            range == kept[sorted[k - 1]]
        } else {
            false
        };
        if !repeated {
            folds.push(range);
        }
        k = k + 1;
    }
    folds
}

/// Normal ranges lie in the text and ascend strictly.
pub proof fn law_normal_folds(t: Seq<u8>, ranges: Seq<FoldingRange>)
    ensures
        normal_folds(t, ranges).len() <= MAX_FOLDING_RANGES,
        forall|i: int|
            #![trigger normal_folds(t, ranges)[i]]
            0 <= i < normal_folds(t, ranges).len() ==> normal_folds(t, ranges)[i].start_line
                < normal_folds(t, ranges)[i].end_line < text::line_count(t),
        forall|i: int, j: int|
            #![trigger normal_folds(t, ranges)[i], normal_folds(t, ranges)[j]]
            0 <= i < j < normal_folds(t, ranges).len() ==> precedes(
                normal_folds(t, ranges)[i],
                normal_folds(t, ranges)[j],
            ),
{
    let total = if ranges.len() < MAX_FOLDING_RANGES {
        ranges.len() as int
    } else {
        MAX_FOLDING_RANGES as int
    };
    let kept = foldable(t, ranges, total);
    lemma_foldable(t, ranges, total);
    let keys = fold_keys(kept);
    let sorted = order::sorted_order(keys, kept.len() as int);
    order::lemma_sorted_order(keys, kept.len() as int);
    let all = items::picked(kept, sorted);
    assert forall|i: int, j: int|
        #![trigger all[i], all[j]]
        0 <= i < j < all.len() implies precedes(all[i], all[j]) || all[i] == all[j] by {
        assert(all[i] == kept[sorted[i]]);
        assert(all[j] == kept[sorted[j]]);
        assert(order::key_le(keys[sorted[i]], keys[sorted[j]]));
    }
    assert forall|i: int| #![trigger all[i]] 0 <= i < all.len() implies all[i].start_line
        < all[i].end_line < text::line_count(t) by {
        assert(all[i] == kept[sorted[i]]);
    }
    lemma_without_repeats(all, all.len() as int);
    let folds = normal_folds(t, ranges);
    assert forall|i: int| #![trigger folds[i]] 0 <= i < folds.len() implies folds[i].start_line
        < folds[i].end_line < text::line_count(t) by {
        let k = choose|k: int| 0 <= k < all.len() && #[trigger] all[k] == folds[i];
        assert(all[k] == folds[i]);
    }
}

/// `a` starts before `b`, or where `b` starts and ends before it.
pub open spec fn precedes(a: FoldRange, b: FoldRange) -> bool {
    a.start_line < b.start_line || (a.start_line == b.start_line && a.end_line < b.end_line)
}

proof fn lemma_foldable(t: Seq<u8>, ranges: Seq<FoldingRange>, n: int)
    requires
        0 <= n <= ranges.len(),
    ensures
        foldable(t, ranges, n).len() <= n,
        forall|i: int|
            #![trigger foldable(t, ranges, n)[i]]
            0 <= i < foldable(t, ranges, n).len() ==> foldable(t, ranges, n)[i].start_line
                < foldable(t, ranges, n)[i].end_line < text::line_count(t),
    decreases n,
{
    if n > 0 {
        lemma_foldable(t, ranges, n - 1);
    }
}

proof fn lemma_without_repeats(all: Seq<FoldRange>, n: int)
    requires
        0 <= n <= all.len(),
        forall|i: int, j: int|
            #![trigger all[i], all[j]]
            0 <= i < j < all.len() ==> precedes(all[i], all[j]) || all[i] == all[j],
    ensures
        without_repeats(all, n).len() <= n,
        n > 0 ==> without_repeats(all, n).len() > 0 && without_repeats(all, n).last() == all[n - 1],
        forall|i: int|
            #![trigger without_repeats(all, n)[i]]
            0 <= i < without_repeats(all, n).len() ==> exists|k: int|
                0 <= k < n && #[trigger] all[k] == without_repeats(all, n)[i],
        forall|i: int, j: int|
            #![trigger without_repeats(all, n)[i], without_repeats(all, n)[j]]
            0 <= i < j < without_repeats(all, n).len() ==> precedes(
                without_repeats(all, n)[i],
                without_repeats(all, n)[j],
            ),
    decreases n,
{
    if n > 0 {
        lemma_without_repeats(all, n - 1);
        let before = without_repeats(all, n - 1);
        let after = without_repeats(all, n);
        if n > 1 && all[n - 1] == all[n - 2] {
        } else {
            assert forall|i: int| #![trigger after[i]] 0 <= i < after.len() implies exists|k: int|
                0 <= k < n && #[trigger] all[k] == after[i] by {
                if i < before.len() {
                    assert(after[i] == before[i]);
                    let k = choose|k: int| 0 <= k < n - 1 && #[trigger] all[k] == before[i];
                    assert(all[k] == after[i]);
                } else {
                    assert(all[n - 1] == after[i]);
                }
            }
            assert forall|i: int, j: int|
                #![trigger after[i], after[j]]
                0 <= i < j < after.len() implies precedes(after[i], after[j]) by {
                assert(after[i] == before[i]);
                if j < before.len() {
                    assert(after[j] == before[j]);
                } else {
                    assert(precedes(all[n - 2], all[n - 1]));
                    if i < before.len() - 1 {
                        assert(precedes(before[i], before.last()));
                    }
                }
            }
        }
    }
}

impl InputState {
    /// Whether the editor holds `text`.
    pub fn has_text(&self, text: &Rope) -> (same: bool)
        ensures
            same == (self.bytes() == rope::rope_bytes(*text)),
    {
        let held = rope::rope_to_string(&self.text);
        let other = rope::rope_to_string(text);
        proof {
            encode_utf8_decode_utf8(held@);
            encode_utf8_decode_utf8(other@);
        }
        chars::same_text(held.as_str(), other.as_str())
    }

    /// Drops the folding ranges of a text that has changed. Returns whether new
    /// ones are to be asked for.
    pub fn update_folding_ranges(&mut self, has_provider: bool) -> (request: bool)
        ensures
            request == has_provider,
            has_provider ==> *final(self) == *old(self),
            !has_provider ==> final(self).lsp.folding_ranges@.len() == 0 && *final(self) == (
            InputState {
                lsp: Lsp { folding_ranges: final(self).lsp.folding_ranges, ..old(self).lsp },
                ..*old(self)
            }),
    {
        if !has_provider {
            self.lsp.folding_ranges = Vec::new();
        }
        has_provider
    }

    /// Takes the ranges that were asked for with `requested` as the text, while
    /// that is still the text. They become the ranges that can be folded.
    pub fn receive_folding_ranges(&mut self, requested: &Rope, ranges: &Vec<FoldingRange>) -> (taken:
        bool)
        ensures
            taken == (old(self).bytes() == rope::rope_bytes(*requested)),
            !taken ==> *final(self) == *old(self),
            taken ==> {
                &&& *final(self) == (InputState {
                    lsp: Lsp { folding_ranges: final(self).lsp.folding_ranges, ..old(self).lsp },
                    fold_candidates: final(self).fold_candidates,
                    ..*old(self)
                })
                &&& final(self).lsp.folding_ranges@ == normal_folds(old(self).bytes(), ranges@)
                &&& final(self).fold_candidates@ == normal_folds(old(self).bytes(), ranges@)
            },
    {
        if !self.has_text(requested) {
            return false;
        }
        let document = self.document();
        self.lsp.folding_ranges = normalize_folding_ranges(&document, ranges);
        self.fold_candidates = normalize_folding_ranges(&document, ranges);
        true
    }
}

} // verus!
