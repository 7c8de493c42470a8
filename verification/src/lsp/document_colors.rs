//! Colors in the text.

use crate::lsp::document_links::{byte_range, find_byte_range, range_at};
use crate::lsp::items;
use crate::lsp::position::{exact_offset, position_le, TextRange};
use crate::lsp::Lsp;
use crate::order;
use crate::state::InputState;
use crate::text::Document;
use std::ops::Range;
use vstd::prelude::*;

verus! {

pub const MAX_DOCUMENT_COLORS: usize = 2_000;

/// A color whose components are given by the bits of 32-bit binary floating
/// point numbers.
#[derive(Debug, Copy, Clone, PartialEq, Eq, Structural)]
pub struct Color {
    pub red: u32,
    pub green: u32,
    pub blue: u32,
    pub alpha: u32,
}

/// A part of the text that stands for a color.
#[derive(Debug, Copy, Clone, PartialEq, Eq, Structural)]
pub struct ColorInformation {
    pub range: TextRange,
    pub color: Color,
}

/// The bits are those of a number from zero to one. Numbers that are not
/// negative are ordered as their bits are; one bit pattern more is that of the
/// negative zero.
pub open spec fn is_unit(bits: u32) -> bool {
    bits <= 0x3f80_0000 || bits == 0x8000_0000
}

pub open spec fn is_valid_color(color: Color) -> bool {
    is_unit(color.red) && is_unit(color.green) && is_unit(color.blue) && is_unit(color.alpha)
}

fn check_unit(bits: u32) -> (unit: bool)
    ensures
        unit == is_unit(bits),
{
    bits <= 0x3f80_0000 || bits == 0x8000_0000
}

pub fn valid_color(color: &Color) -> (valid: bool)
    ensures
        valid == is_valid_color(*color),
{
    check_unit(color.red) && check_unit(color.green) && check_unit(color.blue) && check_unit(
        color.alpha,
    )
}

/// The text has the ends of the range, in order, and the components are in bounds.
pub open spec fn is_valid_information(t: Seq<u8>, info: ColorInformation) -> bool {
    match (exact_offset(t, info.range.start), exact_offset(t, info.range.end)) {
        (Some(start), Some(end)) => start < end && is_valid_color(info.color),
        _ => false,
    }
}

fn valid_information(document: &Document, info: &ColorInformation) -> (valid: bool)
    requires
        document.wf(),
    ensures
        valid == is_valid_information(document.bytes(), *info),
{
    match (document.exact_offset(&info.range.start), document.exact_offset(&info.range.end)) {
        (Some(start), Some(end)) => start < end && valid_color(&info.color),
        _ => false,
    }
}

pub open spec fn color_ranges(colors: Seq<ColorInformation>) -> Seq<TextRange> {
    Seq::new(colors.len(), |i: int| colors[i].range)
}

pub open spec fn color_flags(t: Seq<u8>, colors: Seq<ColorInformation>) -> Seq<bool> {
    Seq::new(colors.len(), |i: int| is_valid_information(t, colors[i]))
}

/// The indices of the colors that are kept.
pub open spec fn normal_color_indices(t: Seq<u8>, colors: Seq<ColorInformation>) -> Seq<int> {
    let chosen = items::ordered_choice(
        color_ranges(colors),
        color_flags(t, colors),
        MAX_DOCUMENT_COLORS as int,
    );
    items::separated(color_ranges(colors), chosen, true, chosen.len() as int)
}

/// The valid colors in the order of their ranges, without those that overlap
/// the one before.
pub open spec fn normal_colors(t: Seq<u8>, colors: Seq<ColorInformation>) -> Seq<ColorInformation> {
    items::picked(colors, normal_color_indices(t, colors))
}

/// The valid colors in the order of their ranges, without those that overlap
/// the one before.
pub fn normalize_document_colors(document: &Document, colors: Vec<ColorInformation>) -> (normal: Vec<
    ColorInformation,
>)
    requires
        document.wf(),
    ensures
        normal@ == normal_colors(document.bytes(), colors@),
{
    let ghost t = document.bytes();
    let mut ranges: Vec<TextRange> = Vec::new();
    let mut flags: Vec<bool> = Vec::new();
    let mut i: usize = 0;
    while i < colors.len()
        invariant
            i <= colors@.len(),
            document.wf(),
            t == document.bytes(),
            ranges@ =~= color_ranges(colors@).take(i as int),
            flags@ =~= color_flags(t, colors@).take(i as int),
        decreases colors.len() - i,
    {
        ranges.push(colors[i].range);
        flags.push(valid_information(document, &colors[i]));
        i = i + 1;
    }
    assert(ranges@ =~= color_ranges(colors@));
    assert(flags@ =~= color_flags(t, colors@));
    let chosen = items::choose_ordered(&ranges, &flags, MAX_DOCUMENT_COLORS);
    let kept = items::separate(&ranges, &chosen, true);
    proof {
        let view = order::indices_view(chosen@);
        items::lemma_ordered_choice(ranges@, flags@, MAX_DOCUMENT_COLORS as int);
        items::lemma_separated(ranges@, view, true, view.len() as int);
    }
    items::pick(colors, &kept)
}

/// Normal colors are valid, none overlaps the next, they ascend, and they are
/// not more than the limit.
pub proof fn law_normal_colors(t: Seq<u8>, colors: Seq<ColorInformation>)
    ensures
        normal_colors(t, colors).len() <= MAX_DOCUMENT_COLORS,
        forall|i: int|
            #![trigger normal_colors(t, colors)[i]]
            0 <= i < normal_colors(t, colors).len() ==> is_valid_information(
                t,
                normal_colors(t, colors)[i],
            ) && colors.contains(normal_colors(t, colors)[i]),
        forall|i: int, j: int|
            #![trigger normal_colors(t, colors)[i], normal_colors(t, colors)[j]]
            0 <= i < j < normal_colors(t, colors).len() ==> position_le(
                normal_colors(t, colors)[i].range.end,
                normal_colors(t, colors)[j].range.start,
            ),
{
    let ranges = color_ranges(colors);
    let flags = color_flags(t, colors);
    let chosen = items::ordered_choice(ranges, flags, MAX_DOCUMENT_COLORS as int);
    items::lemma_ordered_choice(ranges, flags, MAX_DOCUMENT_COLORS as int);
    items::lemma_separated(ranges, chosen, true, chosen.len() as int);
    let kept = normal_color_indices(t, colors);
    let normal = normal_colors(t, colors);
    assert forall|i: int| #![trigger normal[i]] 0 <= i < normal.len() implies is_valid_information(
        t,
        normal[i],
    ) && colors.contains(normal[i]) by {
        assert(normal[i] == colors[kept[i]]);
        let k = choose|k: int| 0 <= k < chosen.len() && #[trigger] chosen[k] == kept[i];
        assert(flags[chosen[k]]);
    }
    assert forall|i: int, j: int|
        #![trigger normal[i], normal[j]]
        0 <= i < j < normal.len() implies position_le(
        normal[i].range.end,
        normal[j].range.start,
    ) by {
        assert(normal[i] == colors[kept[i]]);
        assert(normal[j] == colors[kept[j]]);
        let next = i + 1;
        assert(normal[next] == colors[kept[next]]);
        assert(!items::is_blocked(ranges[kept[i]], ranges[kept[next]], true));
        if next < j {
            assert(items::range_le(ranges[kept[next]], ranges[kept[j]]));
        }
    }
}

/// The first `n` of the colors that have rows in common with `rows`, both ends
/// of which count.
pub open spec fn visible_colors(
    t: Seq<u8>,
    colors: Seq<ColorInformation>,
    rows: Range<usize>,
    n: int,
) -> Seq<(int, int, Color)>
    decreases n,
{
    if n <= 0 {
        Seq::empty()
    } else {
        let before = visible_colors(t, colors, rows, n - 1);
        let range = colors[n - 1].range;
        if range.start.line > rows.end || range.end.line < rows.start {
            before
        } else {
            before.push(
                (byte_range(t, range).0, byte_range(t, range).1, colors[n - 1].color),
            )
        }
    }
}

pub open spec fn color_spans_view(spans: Seq<(Range<usize>, Color)>) -> Seq<(int, int, Color)> {
    Seq::new(
        spans.len(),
        |i: int| (spans[i].0.start as int, spans[i].0.end as int, spans[i].1),
    )
}

impl Lsp {
    /// The first color that holds the offset.
    pub open spec fn color_at(&self, t: Seq<u8>, offset: int) -> Option<ColorInformation> {
        match range_at(t, color_ranges(self.document_colors@), offset, 0) {
            Some(index) => Some(self.document_colors@[index]),
            None => None,
        }
    }

    /// The first color that holds the offset.
    pub fn document_color_at_offset(&self, document: &Document, offset: usize) -> (color: Option<
        ColorInformation,
    >)
        requires
            document.wf(),
        ensures
            color == self.color_at(document.bytes(), offset as int),
    {
        let ghost ranges = color_ranges(self.document_colors@);
        let ghost t = document.bytes();
        let mut i: usize = 0;
        while i < self.document_colors.len()
            invariant
                document.wf(),
                t == document.bytes(),
                ranges == color_ranges(self.document_colors@),
                i <= self.document_colors@.len(),
                range_at(t, ranges, offset as int, 0) == range_at(
                    t,
                    ranges,
                    offset as int,
                    i as int,
                ),
            decreases self.document_colors.len() - i,
        {
            let bytes = find_byte_range(document, &self.document_colors[i].range);
            if bytes.start <= offset && offset < bytes.end {
                return Some(self.document_colors[i]);
            }
            i = i + 1;
        }
        None
    }

    /// Get document colors that intersect with the visible range (0-based row).
    ///
    /// Returns byte ranges and colors.
    pub fn document_colors_for_range(
        &self,
        document: &Document,
        visible_range: &Range<usize>,
    ) -> (spans: Vec<(Range<usize>, Color)>)
        requires
            document.wf(),
        ensures
            color_spans_view(spans@) == visible_colors(
                document.bytes(),
                self.document_colors@,
                *visible_range,
                self.document_colors@.len() as int,
            ),
    {
        let mut spans: Vec<(Range<usize>, Color)> = Vec::new();
        let mut i: usize = 0;
        while i < self.document_colors.len()
            invariant
                document.wf(),
                i <= self.document_colors@.len(),
                color_spans_view(spans@) =~= visible_colors(
                    document.bytes(),
                    self.document_colors@,
                    *visible_range,
                    i as int,
                ),
            decreases self.document_colors.len() - i,
        {
            let info = self.document_colors[i];
            if !(info.range.start.line as usize > visible_range.end || (
            info.range.end.line as usize) < visible_range.start) {
                spans.push((find_byte_range(document, &info.range), info.color));
            }
            i = i + 1;
        }
        spans
    }

    /// Drops the colors, which belong to the text before an edit. Returns
    /// whether new ones are to be asked for.
    pub fn update_document_colors(&mut self, has_provider: bool) -> (request: bool)
        ensures
            request == has_provider,
            *final(self) == (Lsp { document_colors: final(self).document_colors, ..*old(self) }),
            final(self).document_colors@.len() == 0,
    {
        self.document_colors = Vec::new();
        has_provider
    }

    /// Takes the colors that were asked for. Returns whether they are others
    /// than before.
    pub fn receive_document_colors(&mut self, document: &Document, colors: Vec<ColorInformation>) -> (changed:
        bool)
        requires
            document.wf(),
        ensures
            *final(self) == (Lsp { document_colors: final(self).document_colors, ..*old(self) }),
            final(self).document_colors@ == normal_colors(document.bytes(), colors@),
            changed == (final(self).document_colors@ != old(self).document_colors@),
    {
        let normal = normalize_document_colors(document, colors);
        if same_colors(&normal, &self.document_colors) {
            return false;
        }
        self.document_colors = normal;
        true
    }
}

fn same_colors(a: &Vec<ColorInformation>, b: &Vec<ColorInformation>) -> (same: bool)
    ensures
        same == (a@ == b@),
{
    if a.len() != b.len() {
        return false;
    }
    let mut i: usize = 0;
    while i < a.len()
        invariant
            i <= a@.len(),
            a@.len() == b@.len(),
            forall|k: int| 0 <= k < i ==> #[trigger] a@[k] == b@[k],
        decreases a.len() - i,
    {
        if a[i] != b[i] {
            return false;
        }
        i = i + 1;
    }
    assert(a@ =~= b@);
    true
}

impl InputState {
    pub fn document_colors(&self) -> (colors: &Vec<ColorInformation>)
        ensures
            *colors == self.lsp.document_colors,
    {
        &self.lsp.document_colors
    }

    pub fn has_document_color_at_cursor(&self) -> (found: bool)
        ensures
            found == (self.lsp.color_at(self.bytes(), self.primary().spec_head() as int) is Some),
    {
        self.lsp.document_color_at_offset(&self.document(), self.cursor()).is_some()
    }

    /// The color to open at the cursor, where there is one and someone to open it.
    pub fn open_document_color_at_cursor(&self, has_provider: bool) -> (color: Option<
        ColorInformation,
    >)
        ensures
            color == if has_provider {
                self.lsp.color_at(self.bytes(), self.primary().spec_head() as int)
            } else {
                None
            },
    {
        if !has_provider {
            return None;
        }
        self.lsp.document_color_at_offset(&self.document(), self.cursor())
    }

    /// The color to open at an index in document order, where there is one and
    /// someone to open it.
    pub fn open_document_color_at(&self, index: usize, has_provider: bool) -> (color: Option<
        ColorInformation,
    >)
        ensures
            color == if has_provider && index < self.lsp.document_colors@.len() {
                Some(self.lsp.document_colors@[index as int])
            } else {
                None
            },
    {
        if has_provider && index < self.lsp.document_colors.len() {
            Some(self.lsp.document_colors[index])
        } else {
            None
        }
    }
}

} // verus!
