//! The places where the symbol at the cursor is read or written.

use crate::cursor::Position;
use crate::lsp::document_links::{byte_range, find_byte_range};
use crate::lsp::items;
use crate::lsp::position::{offset_position, TextRange};
use crate::lsp::Lsp;
use crate::state::InputState;
use crate::text::Document;
use std::ops::Range;
use vstd::prelude::*;

verus! {

#[derive(Debug, Copy, Clone, PartialEq, Eq, Structural)]
pub enum DocumentHighlightKind {
    Text,
    Read,
    Write,
}

/// A place where a symbol is used.
#[derive(Debug, Copy, Clone, PartialEq, Eq, Structural)]
pub struct DocumentHighlight {
    pub range: TextRange,
    pub kind: Option<DocumentHighlightKind>,
}

/// The starts of the places, as empty ranges.
pub open spec fn highlight_starts(highlights: Seq<DocumentHighlight>) -> Seq<TextRange> {
    Seq::new(
        highlights.len(),
        |i: int| TextRange { start: highlights[i].range.start, end: highlights[i].range.start },
    )
}

/// The places in the order of their starts.
pub open spec fn ordered_highlights(highlights: Seq<DocumentHighlight>) -> Seq<DocumentHighlight> {
    items::picked(
        highlights,
        items::ordered_choice(
            highlight_starts(highlights),
            Seq::new(highlights.len(), |i: int| true),
            usize::MAX as int,
        ),
    )
}

/// The first `n` of the places that have rows in common with `rows`, both ends
/// of which count, and are not empty.
pub open spec fn visible_highlights(
    t: Seq<u8>,
    highlights: Seq<DocumentHighlight>,
    rows: Range<usize>,
    n: int,
) -> Seq<(int, int, Option<DocumentHighlightKind>)>
    decreases n,
{
    if n <= 0 {
        Seq::empty()
    } else {
        let before = visible_highlights(t, highlights, rows, n - 1);
        let range = highlights[n - 1].range;
        let (start, end) = byte_range(t, range);
        if range.start.line > rows.end || range.end.line < rows.start || start >= end {
            before
        } else {
            before.push((start, end, highlights[n - 1].kind))
        }
    }
}

pub open spec fn highlight_spans_view(
    spans: Seq<(Range<usize>, Option<DocumentHighlightKind>)>,
) -> Seq<(int, int, Option<DocumentHighlightKind>)> {
    Seq::new(
        spans.len(),
        |i: int| (spans[i].0.start as int, spans[i].0.end as int, spans[i].1),
    )
}

fn same_highlights(a: &Vec<DocumentHighlight>, b: &Vec<DocumentHighlight>) -> (same: bool)
    ensures
        same == (a@ == b@),
{
    if a.len() != b.len() {
        return false;
    }
    let mut i: usize = 0;
    while i < a.len()
        invariant
            i <= a@.len(),
            a@.len() == b@.len(),
            forall|k: int| 0 <= k < i ==> #[trigger] a@[k] == b@[k],
        decreases a.len() - i,
    {
        let same_kind = match (a[i].kind, b[i].kind) {
            (Some(x), Some(y)) => x == y,
            (None, None) => true,
            _ => false,
        };
        if a[i].range != b[i].range || !same_kind {
            return false;
        }
        i = i + 1;
    }
    assert(a@ =~= b@);
    true
}

impl Lsp {
    /// The places in the visible rows.
    pub fn document_highlights_for_range(
        &self,
        document: &Document,
        visible_range: &Range<usize>,
    ) -> (spans: Vec<(Range<usize>, Option<DocumentHighlightKind>)>)
        requires
            document.wf(),
        ensures
            highlight_spans_view(spans@) == visible_highlights(
                document.bytes(),
                self.document_highlights@,
                *visible_range,
                self.document_highlights@.len() as int,
            ),
    {
        let mut spans: Vec<(Range<usize>, Option<DocumentHighlightKind>)> = Vec::new();
        let mut i: usize = 0;
        while i < self.document_highlights.len()
            invariant
                document.wf(),
                i <= self.document_highlights@.len(),
                highlight_spans_view(spans@) =~= visible_highlights(
                    document.bytes(),
                    self.document_highlights@,
                    *visible_range,
                    i as int,
                ),
            decreases self.document_highlights.len() - i,
        {
            let highlight = self.document_highlights[i];
            let bytes = find_byte_range(document, &highlight.range);
            if !(highlight.range.start.line as usize > visible_range.end || (
            highlight.range.end.line as usize) < visible_range.start || bytes.start >= bytes.end) {
                spans.push((bytes, highlight.kind));
            }
            i = i + 1;
        }
        spans
    }

    /// Returns whether places are to be asked for. Without a provider there are
    /// none.
    pub fn update_document_highlights(&mut self, has_provider: bool) -> (request: bool)
        ensures
            request == has_provider,
            has_provider ==> *final(self) == *old(self),
            !has_provider ==> final(self).document_highlights@.len() == 0 && *final(self) == (Lsp {
                document_highlights: final(self).document_highlights,
                ..*old(self)
            }),
    {
        if !has_provider {
            self.document_highlights = Vec::new();
        }
        has_provider
    }

    /// Takes the places that were asked for. Returns whether they are others
    /// than before.
    pub fn receive_document_highlights(&mut self, highlights: Vec<DocumentHighlight>) -> (changed:
        bool)
        ensures
            *final(self) == (Lsp {
                document_highlights: final(self).document_highlights,
                ..*old(self)
            }),
            final(self).document_highlights@ == ordered_highlights(highlights@),
            changed == (final(self).document_highlights@ != old(self).document_highlights@),
    {
        let mut starts: Vec<TextRange> = Vec::new();
        let mut flags: Vec<bool> = Vec::new();
        let mut i: usize = 0;
        while i < highlights.len()
            invariant
                i <= highlights@.len(),
                starts@ =~= highlight_starts(highlights@).take(i as int),
                flags@ =~= Seq::new(i as nat, |k: int| true),
            decreases highlights.len() - i,
        {
            let start = highlights[i].range.start;
            starts.push(TextRange { start, end: start });
            flags.push(true);
            i = i + 1;
        }
        assert(starts@ =~= highlight_starts(highlights@));
        assert(flags@ =~= Seq::new(highlights@.len(), |k: int| true));
        let chosen = items::choose_ordered(&starts, &flags, usize::MAX);
        proof {
            items::lemma_ordered_choice(starts@, flags@, usize::MAX as int);
        }
        let ordered = items::pick(highlights, &chosen);
        if same_highlights(&ordered, &self.document_highlights) {
            return false;
        }
        self.document_highlights = ordered;
        true
    }
}

impl InputState {
    /// Refresh symbol occurrences after a caret or selection move. Returns the
    /// position to ask for.
    pub fn refresh_document_highlights(&mut self, has_provider: bool) -> (position: Option<
        Position,
    >)
        ensures
            position == if has_provider {
                Some(offset_position(old(self).bytes(), old(self).primary().spec_head() as int))
            } else {
                None
            },
            *final(self) == (InputState { lsp: final(self).lsp, ..*old(self) }),
            has_provider ==> final(self).lsp == old(self).lsp,
            !has_provider ==> final(self).lsp.document_highlights@.len() == 0 && final(self).lsp
                == (Lsp {
                document_highlights: final(self).lsp.document_highlights,
                ..old(self).lsp
            }),
    {
        if self.lsp.update_document_highlights(has_provider) {
            Some(self.document().offset_to_position(self.cursor()))
        } else {
            None
        }
    }
}

} // verus!
