//! Inlay hints: notes that are shown between the characters of the text.

use crate::chars;
use crate::cursor::Position;
use crate::edit;
use crate::lsp::code_lens::{copy_optional, Command};
use crate::lsp::items;
use crate::lsp::position::{
    exact_offset, is_exact, offset_position, position_offset, TextRange,
};
use crate::lsp::{bump, next_generation, Lsp};
use crate::motion;
use crate::order;
use crate::state::InputState;
use crate::text;
use crate::text::Document;
use crate::transaction;
use std::ops::Range;
use vstd::prelude::*;
use vstd::utf8::*;

verus! {

pub const INLAY_HINT_VIEWPORT_MARGIN_LINES: usize = 20;

pub const MAX_INLAY_HINTS: usize = 1_000;

pub const MAX_INLAY_HINT_LABEL_CHARS: usize = 80;

pub const MAX_INLAY_HINT_TEXT_EDITS: usize = 128;

pub const MAX_INLAY_HINT_EDIT_BYTES: usize = 1_048_576;

pub const MAX_INLAY_HINT_TOOLTIP_CHARS: usize = 16_384;

/// A replacement of a part of the text.
#[derive(Debug, Clone, PartialEq, Eq)]
pub struct TextEdit {
    pub range: TextRange,
    pub new_text: String,
}

/// What is shown for a hint under the pointer.
#[derive(Debug, Clone, PartialEq, Eq)]
pub enum Tooltip {
    Plain { value: String },
    Markup { markdown: bool, value: String },
}

/// A part of a label.
#[derive(Debug, Clone, PartialEq, Eq)]
pub struct InlayHintLabelPart {
    pub value: String,
    pub tooltip: Option<Tooltip>,
    pub location: Option<String>,
    pub command: Option<Command>,
}

#[derive(Debug, Clone, PartialEq, Eq)]
pub enum InlayHintLabel {
    Whole { label: String },
    Parts { parts: Vec<InlayHintLabelPart> },
}

#[derive(Debug, Copy, Clone, PartialEq, Eq, Structural)]
pub enum InlayHintKind {
    Type,
    Parameter,
}

/// A note at a position.
#[derive(Debug, Clone, PartialEq, Eq)]
pub struct InlayHint {
    pub position: Position,
    pub label: InlayHintLabel,
    pub kind: Option<InlayHintKind>,
    pub text_edits: Option<Vec<TextEdit>>,
    pub tooltip: Option<Tooltip>,
    pub padding_left: Option<bool>,
    pub padding_right: Option<bool>,
    pub data: Option<String>,
}

/// A part of the label of a hint.
#[derive(Clone, Copy, Debug, PartialEq, Eq, Structural)]
pub struct InlayHintIdentity {
    pub hint_index: usize,
    pub part_index: usize,
}

/// What is to be done with a hint once it is resolved.
#[derive(Clone, Copy, Debug, PartialEq, Eq, Structural)]
pub enum PendingInlayHintAction {
    Hover { identity: InlayHintIdentity },
    Activate { identity: InlayHintIdentity },
    Apply { hint_index: usize },
}

/// A part of a label as it is shown.
#[derive(Clone, Debug, PartialEq, Eq)]
pub struct DisplayInlayHintPart {
    pub part_index: usize,
    pub label: String,
    pub interactive: bool,
    pub active: bool,
}

/// A hint as it is shown.
#[derive(Clone, Debug, PartialEq, Eq)]
pub struct DisplayInlayHint {
    pub hint_index: usize,
    pub buffer_offset: usize,
    pub parts: Vec<DisplayInlayHintPart>,
    pub kind: Option<InlayHintKind>,
    pub padding_left: bool,
    pub padding_right: bool,
}

/// A part of a label as it is shown, as plain values.
pub struct PartModel {
    pub part_index: int,
    pub label: Seq<char>,
    pub interactive: bool,
    pub active: bool,
}

/// A hint as it is shown, as plain values.
pub struct HintModel {
    pub hint_index: int,
    pub buffer_offset: int,
    pub parts: Seq<PartModel>,
    pub kind: Option<InlayHintKind>,
    pub padding_left: bool,
    pub padding_right: bool,
}

pub open spec fn parts_view(parts: Seq<DisplayInlayHintPart>) -> Seq<PartModel> {
    Seq::new(
        parts.len(),
        |i: int|
            PartModel {
                part_index: parts[i].part_index as int,
                label: parts[i].label@,
                interactive: parts[i].interactive,
                active: parts[i].active,
            },
    )
}

pub open spec fn hints_view(hints: Seq<DisplayInlayHint>) -> Seq<HintModel> {
    Seq::new(
        hints.len(),
        |i: int|
            HintModel {
                hint_index: hints[i].hint_index as int,
                buffer_offset: hints[i].buffer_offset as int,
                parts: parts_view(hints[i].parts@),
                kind: hints[i].kind,
                padding_left: hints[i].padding_left,
                padding_right: hints[i].padding_right,
            },
    )
}

/// The texts of a label, each with whether it leads somewhere.
pub open spec fn label_texts(label: InlayHintLabel) -> Seq<(Seq<char>, bool)> {
    match label {
        InlayHintLabel::Whole { label } => seq![(label@, false)],
        InlayHintLabel::Parts { parts } => Seq::new(
            parts@.len(),
            |i: int|
                (
                    parts@[i].value@,
                    parts@[i].location is Some || parts@[i].command is Some,
                ),
        ),
    }
}

/// How many characters are left after the first `n` texts, and what is shown of
/// them. The text that does not fit ends in a mark, and nothing follows it.
pub open spec fn bounded_parts(
    texts: Seq<(Seq<char>, bool)>,
    hint_index: int,
    active: Option<InlayHintIdentity>,
    n: int,
) -> (int, Seq<PartModel>)
    decreases n,
{
    if n <= 0 {
        (MAX_INLAY_HINT_LABEL_CHARS as int, Seq::empty())
    } else {
        let (left, before) = bounded_parts(texts, hint_index, active, n - 1);
        let (text, interactive) = texts[n - 1];
        if left == 0 || text.len() == 0 {
            (left, before)
        } else {
            (
                if text.len() > left {
                    0
                } else {
                    left - text.len()
                },
                before.push(
                    PartModel {
                        part_index: n - 1,
                        label: chars::ellipsized(text, left),
                        interactive,
                        active: interactive && active is Some && (active->Some_0).hint_index
                            == hint_index && (active->Some_0).part_index == n - 1,
                    },
                ),
            )
        }
    }
}

/// What is shown of a label.
pub open spec fn shown_parts(
    label: InlayHintLabel,
    hint_index: int,
    active: Option<InlayHintIdentity>,
) -> Seq<PartModel> {
    bounded_parts(label_texts(label), hint_index, active, label_texts(label).len() as int).1
}

/// What is shown has no more characters than the limit and one mark.
pub proof fn law_shown_labels_are_bounded(
    texts: Seq<(Seq<char>, bool)>,
    hint_index: int,
    active: Option<InlayHintIdentity>,
    n: int,
)
    requires
        0 <= n <= texts.len(),
    ensures
        ({
            let (left, parts) = bounded_parts(texts, hint_index, active, n);
            &&& 0 <= left <= MAX_INLAY_HINT_LABEL_CHARS
            &&& total_chars(parts, parts.len() as int) <= MAX_INLAY_HINT_LABEL_CHARS - left + (
            if left == 0 {
                1int
            } else {
                0int
            })
        }),
    decreases n,
{
    if n > 0 {
        law_shown_labels_are_bounded(texts, hint_index, active, n - 1);
        let (left, before) = bounded_parts(texts, hint_index, active, n - 1);
        let (next, after) = bounded_parts(texts, hint_index, active, n);
        if left != 0 && texts[n - 1].0.len() != 0 {
            lemma_total_chars(before, after, before.len() as int);
        }
    }
}

/// The number of characters of the first `n` parts.
pub open spec fn total_chars(parts: Seq<PartModel>, n: int) -> int
    decreases n,
{
    if n <= 0 {
        0
    } else {
        total_chars(parts, n - 1) + parts[n - 1].label.len()
    }
}

proof fn lemma_total_chars(a: Seq<PartModel>, b: Seq<PartModel>, n: int)
    requires
        n <= a.len(),
        n <= b.len(),
        forall|i: int| #![trigger b[i]] 0 <= i < n ==> a[i] == b[i],
    ensures
        total_chars(a, n) == total_chars(b, n),
    decreases n,
{
    if n > 0 {
        lemma_total_chars(a, b, n - 1);
        assert(a[n - 1] == b[n - 1]);
    }
}

fn label_text(label: &InlayHintLabel, i: usize) -> (text: (&str, bool))
    requires
        i < label_texts(*label).len(),
    ensures
        (text.0@, text.1) == label_texts(*label)[i as int],
{
    match label {
        InlayHintLabel::Whole { label } => (label.as_str(), false),
        InlayHintLabel::Parts { parts } => (
            parts[i].value.as_str(),
            parts[i].location.is_some() || parts[i].command.is_some(),
        ),
    }
}

fn label_len(label: &InlayHintLabel) -> (len: usize)
    ensures
        len == label_texts(*label).len(),
{
    match label {
        InlayHintLabel::Whole { label: _ } => 1,
        InlayHintLabel::Parts { parts } => parts.len(),
    }
}

/// What is shown of a label.
pub fn bounded_label_parts(
    label: &InlayHintLabel,
    hint_index: usize,
    active: Option<InlayHintIdentity>,
) -> (parts: Vec<DisplayInlayHintPart>)
    ensures
        parts_view(parts@) == shown_parts(*label, hint_index as int, active),
{
    let ghost texts = label_texts(*label);
    let total: usize = label_len(label);
    let mut left: usize = MAX_INLAY_HINT_LABEL_CHARS;
    let mut parts: Vec<DisplayInlayHintPart> = Vec::new();
    let mut i: usize = 0;
    assert(parts_view(parts@) =~= Seq::<PartModel>::empty());
    while i < total
        invariant
            i <= total,
            texts == label_texts(*label),
            total == texts.len(),
            (left as int, parts_view(parts@)) == bounded_parts(
                texts,
                hint_index as int,
                active,
                i as int,
            ),
        decreases total - i,
    {
        let (text, interactive) = label_text(label, i);
        let count: usize = chars::chars_of(text).len();
        let ghost before = parts@;
        if left > 0 && count > 0 {
            let current = match active {
                Some(identity) => identity.hint_index == hint_index && identity.part_index == i,
                None => false,
            };
            parts.push(
                DisplayInlayHintPart {
                    part_index: i,
                    label: chars::ellipsize(text, left),
                    interactive,
                    active: interactive && current,
                },
            );
            assert(parts_view(parts@) =~= parts_view(before).push(parts_view(parts@).last()));
            left = if count > left {
                0
            } else {
                left - count
            };
        }
        i = i + 1;
    }
    parts
}

/// Every part of the label has text, and there is one.
pub open spec fn has_text(label: InlayHintLabel) -> bool {
    match label {
        InlayHintLabel::Whole { label } => label@.len() > 0,
        InlayHintLabel::Parts { parts } => parts@.len() > 0 && forall|i: int|
            #![trigger parts@[i]]
            0 <= i < parts@.len() ==> parts@[i].value@.len() > 0,
    }
}

pub fn label_has_text(label: &InlayHintLabel) -> (has: bool)
    ensures
        has == has_text(*label),
{
    match label {
        InlayHintLabel::Whole { label } => chars::chars_of(label.as_str()).len() > 0,
        InlayHintLabel::Parts { parts } => {
            let mut i: usize = 0;
            while i < parts.len()
                invariant
                    *label == (InlayHintLabel::Parts { parts: *parts }),
                    i <= parts@.len(),
                    forall|k: int|
                        #![trigger parts@[k]]
                        0 <= k < i ==> parts@[k].value@.len() > 0,
                decreases parts.len() - i,
            {
                if chars::chars_of(parts[i].value.as_str()).len() == 0 {
                    return false;
                }
                i = i + 1;
            }
            parts.len() > 0
        },
    }
}

pub open spec fn is_valid_hint(t: Seq<u8>, hint: InlayHint) -> bool {
    has_text(hint.label) && is_exact(t, hint.position)
}

pub fn valid_inlay_hint(document: &Document, hint: &InlayHint) -> (valid: bool)
    requires
        document.wf(),
    ensures
        valid == is_valid_hint(document.bytes(), *hint),
{
    label_has_text(&hint.label) && document.exact_offset(&hint.position).is_some()
}

/// A tooltip whose text is bounded.
pub open spec fn is_bounded_tooltip(tooltip: Tooltip, bounded: Tooltip) -> bool {
    match (tooltip, bounded) {
        (Tooltip::Plain { value }, Tooltip::Plain { value: shown }) => shown@
            == chars::ellipsized(value@, MAX_INLAY_HINT_TOOLTIP_CHARS as int),
        (
            Tooltip::Markup { markdown, value },
            Tooltip::Markup { markdown: kept, value: shown },
        ) => kept == markdown && shown@ == chars::ellipsized(
            value@,
            MAX_INLAY_HINT_TOOLTIP_CHARS as int,
        ),
        _ => false,
    }
}

fn bounded_tooltip(tooltip: &Tooltip) -> (bounded: Tooltip)
    ensures
        is_bounded_tooltip(*tooltip, bounded),
{
    match tooltip {
        Tooltip::Plain { value } => Tooltip::Plain {
            value: chars::ellipsize(value.as_str(), MAX_INLAY_HINT_TOOLTIP_CHARS),
        },
        Tooltip::Markup { markdown, value } => Tooltip::Markup {
            markdown: *markdown,
            value: chars::ellipsize(value.as_str(), MAX_INLAY_HINT_TOOLTIP_CHARS),
        },
    }
}

/// The tooltip of a part, or else that of the hint.
pub open spec fn tooltip_of(hint: InlayHint, part_index: int) -> Option<Tooltip> {
    let own = match hint.label {
        InlayHintLabel::Whole { label } => None,
        InlayHintLabel::Parts { parts } => if part_index < parts@.len() {
            parts@[part_index].tooltip
        } else {
            None
        },
    };
    if own is Some {
        own
    } else {
        hint.tooltip
    }
}

fn find_tooltip(hint: &InlayHint, part_index: usize) -> (tooltip: Option<Tooltip>)
    ensures
        match tooltip_of(*hint, part_index as int) {
            Some(found) => tooltip is Some && is_bounded_tooltip(found, tooltip->Some_0),
            None => tooltip is None,
        },
{
    if let InlayHintLabel::Parts { parts } = &hint.label {
        if part_index < parts.len() {
            if let Some(tooltip) = &parts[part_index].tooltip {
                return Some(bounded_tooltip(tooltip));
            }
        }
    }
    match &hint.tooltip {
        Some(tooltip) => Some(bounded_tooltip(tooltip)),
        None => None,
    }
}

/// What a resolved hint makes of the original, which it must not move.
pub open spec fn merged_hint(original: InlayHint, resolved: InlayHint) -> Option<InlayHint> {
    if original.position != resolved.position || !has_text(resolved.label) {
        None
    } else {
        Some(
            InlayHint {
                label: resolved.label,
                tooltip: if resolved.tooltip is Some {
                    resolved.tooltip
                } else {
                    original.tooltip
                },
                text_edits: if resolved.text_edits is Some {
                    resolved.text_edits
                } else {
                    original.text_edits
                },
                ..original
            },
        )
    }
}

/// What a resolved hint makes of the original, which it must not move.
pub fn merge_resolved_inlay_hint(original: InlayHint, resolved: InlayHint) -> (merged: Option<
    InlayHint,
>)
    ensures
        merged == merged_hint(original, resolved),
{
    if original.position != resolved.position || !label_has_text(&resolved.label) {
        return None;
    }
    let mut merged = original;
    merged.label = resolved.label;
    if resolved.tooltip.is_some() {
        merged.tooltip = resolved.tooltip;
    }
    if resolved.text_edits.is_some() {
        merged.text_edits = resolved.text_edits;
    }
    Some(merged)
}

/// The offsets and the bytes of the first `n` edits, if the text has their ends
/// in order and they insert no more than the limit.
pub open spec fn exact_edits(t: Seq<u8>, edits: Seq<TextEdit>, n: int) -> Option<
    Seq<(int, int, Seq<u8>)>,
>
    decreases n,
{
    if n <= 0 {
        Some(Seq::empty())
    } else {
        match exact_edits(t, edits, n - 1) {
            Some(before) => match (
                exact_offset(t, edits[n - 1].range.start),
                exact_offset(t, edits[n - 1].range.end),
            ) {
                (Some(start), Some(end)) => {
                    let after = before.push((start, end, encode_utf8(edits[n - 1].new_text@)));
                    if start <= end && edit::added(after, after.len() as int)
                        <= MAX_INLAY_HINT_EDIT_BYTES {
                        Some(after)
                    } else {
                        None
                    }
                },
                _ => None,
            },
            None => None,
        }
    }
}

/// Whether an edit reaches into the one that follows, or both insert at one place.
pub open spec fn conflicts_next(edits: Seq<(int, int, Seq<u8>)>, i: int) -> bool {
    edits[i].1 > edits[i + 1].0 || (edits[i].0 == edits[i].1 && edits[i + 1].0 == edits[i + 1].1
        && edits[i].0 == edits[i + 1].0)
}

/// The edits of a hint, the last first, if they can be made together.
pub open spec fn normal_edits(t: Seq<u8>, edits: Seq<TextEdit>) -> Option<
    Seq<(int, int, Seq<u8>)>,
> {
    if edits.len() == 0 || edits.len() > MAX_INLAY_HINT_TEXT_EDITS {
        None
    } else {
        match exact_edits(t, edits, edits.len() as int) {
            Some(exact) => {
                let sorted = edit::sorted_edits(exact);
                if exists|i: int| 0 <= i < sorted.len() - 1 && #[trigger] conflicts_next(sorted, i) {
                    None
                } else {
                    Some(sorted.reverse())
                }
            },
            None => None,
        }
    }
}

proof fn lemma_added_push(
    edits: Seq<(int, int, Seq<u8>)>,
    more: (int, int, Seq<u8>),
    n: int,
)
    requires
        0 <= n <= edits.len(),
    ensures
        edit::added(edits.push(more), n) == edit::added(edits, n),
        0 <= edit::added(edits, n),
    decreases n,
{
    if n > 0 {
        lemma_added_push(edits, more, n - 1);
        assert(edits.push(more)[n - 1] == edits[n - 1]);
    }
}

/// The edits of a hint, the last first, if they can be made together.
pub fn normalized_inlay_hint_text_edits(document: &Document, edits: &Vec<TextEdit>) -> (normal: Option<
    Vec<(Range<usize>, String)>,
>)
    requires
        document.wf(),
    ensures
        match normal_edits(document.bytes(), edits@) {
            Some(expected) => normal is Some && edit::edits_view((normal->Some_0)@) == expected,
            None => normal is None,
        },
{
    let ghost t = document.bytes();
    if edits.len() == 0 || edits.len() > MAX_INLAY_HINT_TEXT_EDITS {
        return None;
    }
    let exact = match read_exact_edits(document, edits) {
        Some(exact) => exact,
        None => {
            return None;
        },
    };
    let (sorted, _) = edit::sort_edits(&exact);
    let ghost view = edit::edits_view(sorted@);
    let mut i: usize = 1;
    while i < sorted.len()
        invariant
            1 <= i,
            i <= sorted@.len() || sorted@.len() == 0,
            view == edit::edits_view(sorted@),
            edits@.len() > 0,
            edits@.len() <= MAX_INLAY_HINT_TEXT_EDITS,
            exact_edits(t, edits@, edits@.len() as int) == Some(edit::edits_view(exact@)),
            view == edit::sorted_edits(edit::edits_view(exact@)),
            t == document.bytes(),
            forall|k: int| 0 <= k < i - 1 ==> !#[trigger] conflicts_next(view, k),
        decreases sorted.len() - i,
    {
        let previous = &sorted[i - 1].0;
        let next = &sorted[i].0;
        assert(view[i - 1] == edit::edit_view(sorted@[i - 1]));
        assert(view[i as int] == edit::edit_view(sorted@[i as int]));
        if previous.end > next.start || (previous.start == previous.end && next.start == next.end
            && previous.start == next.start) {
            assert(conflicts_next(view, i - 1));
            return None;
        }
        i = i + 1;
    }
    let reversed = items::reversed(sorted);
    assert(edit::edits_view(reversed@) =~= view.reverse());
    Some(reversed)
}

fn read_exact_edits(document: &Document, edits: &Vec<TextEdit>) -> (exact: Option<
    Vec<(Range<usize>, String)>,
>)
    requires
        document.wf(),
    ensures
        match exact_edits(document.bytes(), edits@, edits@.len() as int) {
            Some(expected) => exact is Some && edit::edits_view((exact->Some_0)@) == expected,
            None => exact is None,
        },
{
    let ghost t = document.bytes();
    let mut exact: Vec<(Range<usize>, String)> = Vec::new();
    let mut total: usize = 0;
    let mut i: usize = 0;
    assert(edit::edits_view(exact@) =~= Seq::empty());
    while i < edits.len()
        invariant
            document.wf(),
            t == document.bytes(),
            i <= edits@.len(),
            exact_edits(t, edits@, i as int) == Some(edit::edits_view(exact@)),
            total == edit::added(edit::edits_view(exact@), exact@.len() as int),
            total <= MAX_INLAY_HINT_EDIT_BYTES,
        decreases edits.len() - i,
    {
        let edit = &edits[i];
        let ghost before = edit::edits_view(exact@);
        let ghost bytes = encode_utf8(edit.new_text@);
        let found = (
            document.exact_offset(&edit.range.start),
            document.exact_offset(&edit.range.end),
        );
        match found {
            (Some(start), Some(end)) => {
                let length: usize = edit.new_text.as_str().as_bytes().len();
                proof {
                    let more = (start as int, end as int, bytes);
                    lemma_added_push(before, more, before.len() as int);
                    assert(before.push(more)[before.len() as int] == more);
                    if start > end || length > MAX_INLAY_HINT_EDIT_BYTES - total {
                        lemma_no_exact_edits(t, edits@, i + 1, edits@.len() as int);
                    }
                }
                if start > end || length > MAX_INLAY_HINT_EDIT_BYTES - total {
                    return None;
                }
                total = total + length;
                exact.push((Range { start, end }, edit.new_text.clone()));
                assert(edit::edits_view(exact@) =~= before.push(
                    (start as int, end as int, bytes),
                ));
            },
            _ => {
                proof {
                    lemma_no_exact_edits(t, edits@, i + 1, edits@.len() as int);
                }
                return None;
            },
        }
        i = i + 1;
    }
    Some(exact)
}

/// Where the first edits cannot be read, more cannot.
proof fn lemma_no_exact_edits(t: Seq<u8>, edits: Seq<TextEdit>, m: int, n: int)
    requires
        0 <= m <= n,
        exact_edits(t, edits, m) is None,
    ensures
        exact_edits(t, edits, n) is None,
    decreases n - m,
{
    if m < n {
        lemma_no_exact_edits(t, edits, m, n - 1);
    }
}

/// The ones of the first `n` hints that stand on the line, as they are shown.
pub open spec fn hints_on_line(
    t: Seq<u8>,
    hints: Seq<InlayHint>,
    active: Option<InlayHintIdentity>,
    line: int,
    n: int,
) -> Seq<HintModel>
    decreases n,
{
    if n <= 0 {
        Seq::empty()
    } else {
        let before = hints_on_line(t, hints, active, line, n - 1);
        let hint = hints[n - 1];
        let parts = shown_parts(hint.label, n - 1, active);
        if hint.position.line == line && parts.len() > 0 {
            before.push(
                HintModel {
                    hint_index: n - 1,
                    buffer_offset: position_offset(t, hint.position) - text::line_start(t, line),
                    parts,
                    kind: hint.kind,
                    padding_left: hint.padding_left == Some(true),
                    padding_right: hint.padding_right == Some(true),
                },
            )
        } else {
            before
        }
    }
}

/// The part of the text for which hints are asked: the visible rows and some
/// around them.
pub open spec fn hint_range(t: Seq<u8>, rows: Range<usize>) -> TextRange {
    let last = text::line_count(t) - 1;
    let margin = INLAY_HINT_VIEWPORT_MARGIN_LINES;
    let first = if rows.start <= margin {
        0
    } else {
        rows.start - margin
    };
    let end = if rows.end + margin < last {
        rows.end + margin
    } else {
        last
    };
    TextRange {
        start: Position {
            line: (if first < last {
                first
            } else {
                last
            }) as u32,
            character: 0,
        },
        end: offset_position(t, text::line_end(t, end)),
    }
}

pub open spec fn hint_flags(t: Seq<u8>, hints: Seq<InlayHint>) -> Seq<bool> {
    Seq::new(hints.len(), |i: int| is_valid_hint(t, hints[i]))
}

pub open spec fn hint_places(hints: Seq<InlayHint>) -> Seq<TextRange> {
    Seq::new(
        hints.len(),
        |i: int| TextRange { start: hints[i].position, end: hints[i].position },
    )
}

/// The first valid hints, in the order of their positions.
pub open spec fn normal_hints(t: Seq<u8>, hints: Seq<InlayHint>) -> Seq<InlayHint> {
    let kept = items::picked(
        hints,
        items::at_most(
            items::flagged(hint_flags(t, hints), hints.len() as int),
            MAX_INLAY_HINTS as int,
        ),
    );
    items::picked(
        kept,
        items::ordered_choice(
            hint_places(kept),
            Seq::new(kept.len(), |i: int| true),
            usize::MAX as int,
        ),
    )
}

/// The first valid hints, in the order of their positions.
pub fn normalize_inlay_hints(document: &Document, hints: Vec<InlayHint>) -> (normal: Vec<InlayHint>)
    requires
        document.wf(),
    ensures
        normal@ == normal_hints(document.bytes(), hints@),
{
    let ghost t = document.bytes();
    let mut flags: Vec<bool> = Vec::new();
    let mut i: usize = 0;
    while i < hints.len()
        invariant
            document.wf(),
            t == document.bytes(),
            i <= hints@.len(),
            flags@ =~= hint_flags(t, hints@).take(i as int),
        decreases hints.len() - i,
    {
        flags.push(valid_inlay_hint(document, &hints[i]));
        i = i + 1;
    }
    assert(flags@ =~= hint_flags(t, hints@));
    let mut indices = items::keep_flagged(&flags);
    let ghost all = order::indices_view(indices@);
    proof {
        items::lemma_flagged(flags@, flags@.len() as int);
    }
    if indices.len() > MAX_INLAY_HINTS {
        indices.truncate(MAX_INLAY_HINTS);
    }
    assert(order::indices_view(indices@) =~= items::at_most(all, MAX_INLAY_HINTS as int));
    let kept = items::pick(hints, &indices);
    let mut places: Vec<TextRange> = Vec::new();
    let mut every: Vec<bool> = Vec::new();
    let mut k: usize = 0;
    while k < kept.len()
        invariant
            k <= kept@.len(),
            places@ =~= hint_places(kept@).take(k as int),
            every@ =~= Seq::new(k as nat, |j: int| true),
        decreases kept.len() - k,
    {
        let position = kept[k].position;
        places.push(TextRange { start: position, end: position });
        every.push(true);
        k = k + 1;
    }
    assert(places@ =~= hint_places(kept@));
    assert(every@ =~= Seq::new(kept@.len(), |j: int| true));
    let chosen = items::choose_ordered(&places, &every, usize::MAX);
    proof {
        items::lemma_ordered_choice(places@, every@, usize::MAX as int);
    }
    items::pick(kept, &chosen)
}

/// No hints, and a generation that no request has.
pub open spec fn without_hints(before: Lsp, after: Lsp) -> bool {
    &&& after == (Lsp {
        inlay_hint_generation: next_generation(before.inlay_hint_generation),
        inlay_hint_range: None,
        inlay_hints: after.inlay_hints,
        inlay_hint_resolve_attempted: after.inlay_hint_resolve_attempted,
        inlay_hint_resolved: after.inlay_hint_resolved,
        inlay_hint_resolve_actions: after.inlay_hint_resolve_actions,
        active_inlay_hint: None,
        ..before
    })
    &&& after.inlay_hints@.len() == 0
    &&& after.hints_wf()
}

impl Lsp {
    /// There is one record of what was resolved for each hint.
    pub open spec fn hints_wf(&self) -> bool {
        &&& self.inlay_hint_resolve_attempted@.len() == self.inlay_hints@.len()
        &&& self.inlay_hint_resolved@.len() == self.inlay_hints@.len()
        &&& self.inlay_hint_resolve_actions@.len() == self.inlay_hints@.len()
    }

    /// The hints of a line, as they are shown.
    pub fn inlay_hints_for_line(&self, document: &Document, buffer_line: usize) -> (shown: Vec<
        DisplayInlayHint,
    >)
        requires
            document.wf(),
        ensures
            hints_view(shown@) == hints_on_line(
                document.bytes(),
                self.inlay_hints@,
                self.active_inlay_hint,
                buffer_line as int,
                self.inlay_hints@.len() as int,
            ),
    {
        let ghost t = document.bytes();
        let line_start: usize = document.line_start_offset(buffer_line);
        let mut shown: Vec<DisplayInlayHint> = Vec::new();
        let mut i: usize = 0;
        while i < self.inlay_hints.len()
            invariant
                document.wf(),
                t == document.bytes(),
                line_start == text::line_start(t, buffer_line as int),
                i <= self.inlay_hints@.len(),
                hints_view(shown@) =~= hints_on_line(
                    t,
                    self.inlay_hints@,
                    self.active_inlay_hint,
                    buffer_line as int,
                    i as int,
                ),
            decreases self.inlay_hints.len() - i,
        {
            let hint = &self.inlay_hints[i];
            if hint.position.line as usize == buffer_line {
                let offset: usize = document.position_to_offset(&hint.position);
                proof {
                    document.lemma_wf();
                    crate::lsp::position::lemma_position_offset(t, hint.position);
                    text::lemma_line_start(t, buffer_line as int);
                }
                let parts = bounded_label_parts(&hint.label, i, self.active_inlay_hint);
                if parts.len() > 0 {
                    let padding_left = match hint.padding_left {
                        Some(padding) => padding,
                        None => false,
                    };
                    let padding_right = match hint.padding_right {
                        Some(padding) => padding,
                        None => false,
                    };
                    shown.push(
                        DisplayInlayHint {
                            hint_index: i,
                            buffer_offset: offset - line_start,
                            parts,
                            kind: hint.kind,
                            padding_left,
                            padding_right,
                        },
                    );
                }
            }
            i = i + 1;
        }
        shown
    }

    /// Drops the hints, and the reply to any request for them.
    pub fn invalidate_inlay_hints(&mut self)
        ensures
            without_hints(*old(self), *final(self)),
    {
        self.inlay_hint_generation = bump(self.inlay_hint_generation);
        self.inlay_hint_range = None;
        self.inlay_hints = Vec::new();
        self.inlay_hint_resolve_attempted = Vec::new();
        self.inlay_hint_resolved = Vec::new();
        self.inlay_hint_resolve_actions = Vec::new();
        self.active_inlay_hint = None;
    }

    /// Asks for the hints around the visible rows, unless they were the last
    /// that were asked for.
    pub fn update_inlay_hints(
        &mut self,
        document: &Document,
        has_provider: bool,
        visible_rows: Range<usize>,
    ) -> (request: Option<TextRange>)
        requires
            document.wf(),
        ensures
            !has_provider ==> request is None && without_hints(*old(self), *final(self)),
            has_provider ==> {
                let range = hint_range(document.bytes(), visible_rows);
                &&& request == if old(self).inlay_hint_range == Some(range) {
                    None
                } else {
                    Some(range)
                }
                &&& *final(self) == (Lsp { inlay_hint_range: Some(range), ..*old(self) })
            },
    {
        if !has_provider {
            self.invalidate_inlay_hints();
            return None;
        }
        let last: usize = document.lines_len() - 1;
        let margin: usize = INLAY_HINT_VIEWPORT_MARGIN_LINES;
        let first: usize = if visible_rows.start <= margin {
            0
        } else {
            visible_rows.start - margin
        };
        let start_line: usize = if first < last {
            first
        } else {
            last
        };
        let end_line: usize = if visible_rows.end < last && margin < last - visible_rows.end {
            visible_rows.end + margin
        } else {
            last
        };
        let range = TextRange {
            start: Position { line: start_line as u32, character: 0 },
            end: document.offset_to_position(document.line_end_offset(end_line)),
        };
        if let Some(requested) = self.inlay_hint_range {
            if requested == range {
                return None;
            }
        }
        self.inlay_hint_range = Some(range);
        Some(range)
    }

    /// Takes the hints that were asked for, if they are still the last that
    /// were asked for.
    pub fn receive_inlay_hints(
        &mut self,
        document: &Document,
        range: TextRange,
        hints: Vec<InlayHint>,
    ) -> (taken: bool)
        requires
            document.wf(),
        ensures
            taken == (old(self).inlay_hint_range == Some(range)),
            !taken ==> *final(self) == *old(self),
            taken ==> {
                &&& *final(self) == (Lsp {
                    inlay_hint_generation: next_generation(old(self).inlay_hint_generation),
                    inlay_hints: final(self).inlay_hints,
                    inlay_hint_resolve_attempted: final(self).inlay_hint_resolve_attempted,
                    inlay_hint_resolved: final(self).inlay_hint_resolved,
                    inlay_hint_resolve_actions: final(self).inlay_hint_resolve_actions,
                    active_inlay_hint: None,
                    ..*old(self)
                })
                &&& final(self).inlay_hints@ == normal_hints(document.bytes(), hints@)
                &&& final(self).hints_wf()
                &&& forall|i: int|
                    #![trigger final(self).inlay_hints@[i]]
                    0 <= i < final(self).inlay_hints@.len() ==> !final(self).inlay_hint_resolve_attempted@[i] && !final(self).inlay_hint_resolved@[i]
                        && final(self).inlay_hint_resolve_actions@[i] is None
            },
    {
        let wanted = match self.inlay_hint_range {
            Some(requested) => requested == range,
            None => false,
        };
        if !wanted {
            return false;
        }
        let normal = normalize_inlay_hints(document, hints);
        let mut attempted: Vec<bool> = Vec::new();
        let mut resolved: Vec<bool> = Vec::new();
        let mut actions: Vec<Option<PendingInlayHintAction>> = Vec::new();
        let mut i: usize = 0;
        while i < normal.len()
            invariant
                i <= normal@.len(),
                attempted@ =~= Seq::new(i as nat, |k: int| false),
                resolved@ =~= Seq::new(i as nat, |k: int| false),
                actions@ =~= Seq::new(i as nat, |k: int| None::<PendingInlayHintAction>),
            decreases normal.len() - i,
        {
            attempted.push(false);
            resolved.push(false);
            actions.push(None);
            i = i + 1;
        }
        self.inlay_hint_generation = bump(self.inlay_hint_generation);
        self.inlay_hint_resolve_attempted = attempted;
        self.inlay_hint_resolved = resolved;
        self.inlay_hint_resolve_actions = actions;
        self.inlay_hints = normal;
        self.active_inlay_hint = None;
        true
    }
}

/// A request to resolve one hint.
#[derive(Clone, Copy, Debug, PartialEq, Eq, Structural)]
pub struct InlayHintResolution {
    pub generation: u64,
    pub hint_index: usize,
    pub position: Position,
}

/// What is done with an action on a hint.
#[derive(Clone, Copy, Debug, PartialEq, Eq, Structural)]
pub enum InlayHintStep {
    /// There is no such hint, or nobody to act on it.
    Refuse,
    /// A request for the hint is under way; the action follows it.
    Wait,
    Perform { action: PendingInlayHintAction },
    Resolve { request: InlayHintResolution },
}

/// What performing an action on a hint asks for.
#[derive(Clone, Debug, PartialEq, Eq)]
pub enum InlayHintEffect {
    Refused,
    Kept,
    HideTooltip,
    ShowTooltip { start: usize, end: usize, tooltip: Tooltip },
    Activate { location: Option<String>, command: Option<Command> },
    Apply { hint_index: usize },
}

/// The hints with one record of them changed.
pub open spec fn with_record(
    before: Lsp,
    after: Lsp,
    index: int,
    attempted: bool,
    action: Option<PendingInlayHintAction>,
) -> bool {
    &&& after == (Lsp {
        inlay_hint_resolve_attempted: after.inlay_hint_resolve_attempted,
        inlay_hint_resolve_actions: after.inlay_hint_resolve_actions,
        ..before
    })
    &&& after.inlay_hint_resolve_attempted@ == before.inlay_hint_resolve_attempted@.update(
        index,
        attempted,
    )
    &&& after.inlay_hint_resolve_actions@ == before.inlay_hint_resolve_actions@.update(index, action)
}

/// What an action on a hint comes to: it is performed where nothing can be
/// resolved any more, else the hint is resolved once and the last action that
/// was asked for meanwhile follows.
pub open spec fn is_hint_step(
    before: Lsp,
    after: Lsp,
    provider: Option<bool>,
    index: int,
    action: PendingInlayHintAction,
    step: InlayHintStep,
) -> bool {
    if provider is None || index >= before.inlay_hints@.len() {
        step == InlayHintStep::Refuse && after == before
    } else if provider == Some(false) || before.inlay_hint_resolved@[index] {
        step == (InlayHintStep::Perform { action }) && after == before
    } else if before.inlay_hint_resolve_attempted@[index] {
        step == InlayHintStep::Wait && with_record(before, after, index, true, Some(action))
    } else {
        &&& step == (InlayHintStep::Resolve {
            request: InlayHintResolution {
                generation: before.inlay_hint_generation,
                hint_index: index as usize,
                position: before.inlay_hints@[index].position,
            },
        })
        &&& with_record(before, after, index, true, Some(action))
    }
}

/// The reply to a request to resolve a hint is about a hint that is there.
pub open spec fn is_current_hint(lsp: Lsp, request: InlayHintResolution) -> bool {
    &&& lsp.inlay_hint_generation == request.generation
    &&& request.hint_index < lsp.inlay_hints@.len()
    &&& lsp.inlay_hints@[request.hint_index as int].position == request.position
}

/// What a resolved hint makes of the hint that was asked for.
pub open spec fn accepted_hint(
    t: Seq<u8>,
    lsp: Lsp,
    request: InlayHintResolution,
    resolved: Option<InlayHint>,
) -> Option<InlayHint> {
    match resolved {
        Some(resolved) => match merged_hint(
            lsp.inlay_hints@[request.hint_index as int],
            resolved,
        ) {
            Some(merged) => if is_valid_hint(t, merged) {
                Some(merged)
            } else {
                None
            },
            None => None,
        },
        None => None,
    }
}

/// The label part that an identity names.
pub open spec fn part_at(lsp: Lsp, identity: InlayHintIdentity) -> Option<InlayHintLabelPart> {
    if identity.hint_index < lsp.inlay_hints@.len() {
        match lsp.inlay_hints@[identity.hint_index as int].label {
            InlayHintLabel::Whole { label } => None,
            InlayHintLabel::Parts { parts } => if identity.part_index < parts@.len() {
                Some(parts@[identity.part_index as int])
            } else {
                None
            },
        }
    } else {
        None
    }
}

/// Where a tooltip of a hint is shown: over the character behind it, or else
/// the one before it.
pub open spec fn anchor_range(t: Seq<u8>, o: int) -> (int, int) {
    if motion::step(t, o, true) > o {
        (o, motion::step(t, o, true))
    } else if o > 0 {
        (motion::step(t, o, false), o)
    } else {
        (0, 0)
    }
}

fn copy_command(command: &Option<Command>) -> (copy: Option<Command>)
    ensures
        copy == *command,
{
    match command {
        Some(command) => Some(
            Command {
                title: command.title.clone(),
                command: command.command.clone(),
                arguments: copy_optional(&command.arguments),
            },
        ),
        None => None,
    }
}

impl InputState {
    /// Asks for the hints around the visible rows.
    pub fn refresh_inlay_hints(&mut self, has_provider: bool, visible_rows: Range<usize>) -> (request:
        Option<TextRange>)
        ensures
            *final(self) == (InputState { lsp: final(self).lsp, ..*old(self) }),
            !has_provider ==> request is None && without_hints(old(self).lsp, final(self).lsp),
            has_provider ==> {
                let range = hint_range(old(self).bytes(), visible_rows);
                &&& request == if old(self).lsp.inlay_hint_range == Some(range) {
                    None
                } else {
                    Some(range)
                }
                &&& final(self).lsp == (Lsp { inlay_hint_range: Some(range), ..old(self).lsp })
            },
    {
        let document = self.document();
        self.lsp.update_inlay_hints(&document, has_provider, visible_rows)
    }

    pub fn invalidate_inlay_hints(&mut self)
        ensures
            *final(self) == (InputState { lsp: final(self).lsp, ..*old(self) }),
            without_hints(old(self).lsp, final(self).lsp),
    {
        self.lsp.invalidate_inlay_hints();
    }

    pub fn inlay_hints(&self) -> (hints: &Vec<InlayHint>)
        ensures
            *hints == self.lsp.inlay_hints,
    {
        &self.lsp.inlay_hints
    }

    pub fn active_inlay_hint(&self) -> (active: Option<InlayHintIdentity>)
        ensures
            active == self.lsp.active_inlay_hint,
    {
        self.lsp.active_inlay_hint
    }

    /// What an action on a hint comes to.
    pub fn resolve_or_perform_inlay_hint_action(
        &mut self,
        provider: Option<bool>,
        hint_index: usize,
        action: PendingInlayHintAction,
    ) -> (step: InlayHintStep)
        requires
            old(self).lsp.hints_wf(),
        ensures
            is_hint_step(
                old(self).lsp,
                final(self).lsp,
                provider,
                hint_index as int,
                action,
                step,
            ),
            final(self).lsp.hints_wf(),
            *final(self) == (InputState { lsp: final(self).lsp, ..*old(self) }),
    {
        match provider {
            Some(can_resolve) => {
                if hint_index >= self.lsp.inlay_hints.len() {
                    return InlayHintStep::Refuse;
                }
                if !can_resolve || self.lsp.inlay_hint_resolved[hint_index] {
                    return InlayHintStep::Perform { action };
                }
                let attempted = self.lsp.inlay_hint_resolve_attempted[hint_index];
                self.lsp.inlay_hint_resolve_attempted.set(hint_index, true);
                self.lsp.inlay_hint_resolve_actions.set(hint_index, Some(action));
                if attempted {
                    return InlayHintStep::Wait;
                }
                InlayHintStep::Resolve {
                    request: InlayHintResolution {
                        generation: self.lsp.inlay_hint_generation,
                        hint_index,
                        position: self.lsp.inlay_hints[hint_index].position,
                    },
                }
            },
            None => InlayHintStep::Refuse,
        }
    }

    /// Takes a resolved hint, or notes that it could not be resolved. Returns
    /// the action that waited for it.
    pub fn receive_resolved_inlay_hint(
        &mut self,
        request: InlayHintResolution,
        resolved: Option<InlayHint>,
    ) -> (action: Option<PendingInlayHintAction>)
        requires
            old(self).lsp.hints_wf(),
        ensures
            final(self).lsp.hints_wf(),
            *final(self) == (InputState { lsp: final(self).lsp, ..*old(self) }),
            !is_current_hint(old(self).lsp, request) ==> action is None && final(self).lsp == old(
                self,
            ).lsp,
            is_current_hint(old(self).lsp, request) ==> {
                let index = request.hint_index as int;
                match accepted_hint(old(self).bytes(), old(self).lsp, request, resolved) {
                    Some(hint) => {
                        &&& action == old(self).lsp.inlay_hint_resolve_actions@[index]
                        &&& final(self).lsp == (Lsp {
                            inlay_hints: final(self).lsp.inlay_hints,
                            inlay_hint_resolved: final(self).lsp.inlay_hint_resolved,
                            inlay_hint_resolve_actions: final(self).lsp.inlay_hint_resolve_actions,
                            ..old(self).lsp
                        })
                        &&& final(self).lsp.inlay_hints@ == old(self).lsp.inlay_hints@.update(
                            index,
                            hint,
                        )
                        &&& final(self).lsp.inlay_hint_resolved@ == old(
                            self,
                        ).lsp.inlay_hint_resolved@.update(index, true)
                        &&& final(self).lsp.inlay_hint_resolve_actions@ == old(
                            self,
                        ).lsp.inlay_hint_resolve_actions@.update(index, None)
                    },
                    None => action is None && with_record(
                        old(self).lsp,
                        final(self).lsp,
                        index,
                        false,
                        None,
                    ),
                }
            },
    {
        let index: usize = request.hint_index;
        if self.lsp.inlay_hint_generation != request.generation || index
            >= self.lsp.inlay_hints.len() {
            return None;
        }
        if self.lsp.inlay_hints[index].position != request.position {
            return None;
        }
        let document = self.document();
        if let Some(resolved) = resolved {
            let fits = resolved.position == request.position && label_has_text(&resolved.label)
                && document.exact_offset(&resolved.position).is_some();
            if fits {
                let original = self.lsp.inlay_hints.remove(index);
                let merged = merge_resolved_inlay_hint(original, resolved).unwrap();
                self.lsp.inlay_hints.insert(index, merged);
                assert(self.lsp.inlay_hints@ =~= old(self).lsp.inlay_hints@.update(
                    index as int,
                    merged,
                ));
                self.lsp.inlay_hint_resolved.set(index, true);
                let action = self.lsp.inlay_hint_resolve_actions[index];
                self.lsp.inlay_hint_resolve_actions.set(index, None);
                return action;
            }
        }
        self.lsp.inlay_hint_resolve_attempted.set(index, false);
        self.lsp.inlay_hint_resolve_actions.set(index, None);
        None
    }

    /// What performing an action asks for.
    pub fn perform_inlay_hint_action(&self, action: PendingInlayHintAction, has_provider: bool) -> (effect:
        InlayHintEffect)
        ensures
            self.is_hint_effect(action, has_provider, effect),
    {
        match action {
            PendingInlayHintAction::Hover { identity } => self.hint_tooltip_effect(identity),
            PendingInlayHintAction::Activate { identity } => {
                if !has_provider || identity.hint_index >= self.lsp.inlay_hints.len() {
                    return InlayHintEffect::Refused;
                }
                match &self.lsp.inlay_hints[identity.hint_index].label {
                    InlayHintLabel::Whole { label: _ } => InlayHintEffect::Refused,
                    InlayHintLabel::Parts { parts } => {
                        if identity.part_index >= parts.len() {
                            return InlayHintEffect::Refused;
                        }
                        let part = &parts[identity.part_index];
                        InlayHintEffect::Activate {
                            location: copy_optional(&part.location),
                            command: copy_command(&part.command),
                        }
                    },
                }
            },
            PendingInlayHintAction::Apply { hint_index } => InlayHintEffect::Apply { hint_index },
        }
    }

    /// What performing an action asks for: a tooltip over the text where a part
    /// or its hint has one, a location or a command to go to, or edits.
    pub open spec fn is_hint_effect(
        &self,
        action: PendingInlayHintAction,
        has_provider: bool,
        effect: InlayHintEffect,
    ) -> bool {
        match action {
            PendingInlayHintAction::Hover { identity } => self.is_tooltip_effect(identity, effect),
            PendingInlayHintAction::Activate { identity } => effect == match part_at(
                self.lsp,
                identity,
            ) {
                Some(part) => if has_provider {
                    InlayHintEffect::Activate { location: part.location, command: part.command }
                } else {
                    InlayHintEffect::Refused
                },
                None => InlayHintEffect::Refused,
            },
            PendingInlayHintAction::Apply { hint_index } => effect == (InlayHintEffect::Apply {
                hint_index,
            }),
        }
    }

    pub open spec fn is_tooltip_effect(
        &self,
        identity: InlayHintIdentity,
        effect: InlayHintEffect,
    ) -> bool {
        if identity.hint_index >= self.lsp.inlay_hints@.len() {
            effect is Kept
        } else {
            let hint = self.lsp.inlay_hints@[identity.hint_index as int];
            match tooltip_of(hint, identity.part_index as int) {
                None => effect is HideTooltip,
                Some(tooltip) => match exact_offset(self.bytes(), hint.position) {
                    None => effect is Kept,
                    Some(offset) => {
                        &&& effect is ShowTooltip
                        &&& is_bounded_tooltip(tooltip, effect->tooltip)
                        &&& (effect->start as int, effect->end as int) == anchor_range(
                            self.bytes(),
                            offset,
                        )
                    },
                },
            }
        }
    }

    fn hint_tooltip_effect(&self, identity: InlayHintIdentity) -> (effect: InlayHintEffect)
        ensures
            self.is_tooltip_effect(identity, effect),
    {
        if identity.hint_index >= self.lsp.inlay_hints.len() {
            return InlayHintEffect::Kept;
        }
        let hint = &self.lsp.inlay_hints[identity.hint_index];
        match find_tooltip(hint, identity.part_index) {
            None => InlayHintEffect::HideTooltip,
            Some(tooltip) => {
                let document = self.document();
                match document.exact_offset(&hint.position) {
                    None => InlayHintEffect::Kept,
                    Some(offset) => {
                        let next: usize = motion::find_step(&document, offset, true);
                        if next > offset {
                            return InlayHintEffect::ShowTooltip {
                                start: offset,
                                end: next,
                                tooltip,
                            };
                        }
                        if offset > 0 {
                            let start: usize = motion::find_step(&document, offset, false);
                            return InlayHintEffect::ShowTooltip { start, end: offset, tooltip };
                        }
                        InlayHintEffect::ShowTooltip { start: 0, end: 0, tooltip }
                    },
                }
            },
        }
    }

    /// Makes the edits of a hint, if it has any that can be made.
    pub fn apply_inlay_hint_text_edits(&mut self, hint_index: usize) -> (applied: bool)
        requires
            old(self).wf(),
            old(self).text_version < usize::MAX,
        ensures
            final(self).wf(),
            ({
                let current = old(self).all_selections();
                match old(self).hint_edits(hint_index as int) {
                    Some(edits) => transaction::planned(
                        *old(self),
                        *final(self),
                        Some(
                            (
                                edits,
                                Seq::new(
                                    current.len(),
                                    |i: int|
                                        edit::shifted_selection(
                                            edit::sorted_edits(edits),
                                            current[i],
                                            true,
                                        ),
                                ),
                            ),
                        ),
                        applied,
                    ),
                    None => !applied && *final(self) == *old(self),
                }
            }),
    {
        if hint_index >= self.lsp.inlay_hints.len() {
            return false;
        }
        let document = self.document();
        let edits = match &self.lsp.inlay_hints[hint_index].text_edits {
            Some(edits) => normalized_inlay_hint_text_edits(&document, edits),
            None => None,
        };
        match edits {
            Some(edits) => self.apply_buffer_edits(edits),
            None => false,
        }
    }

    /// The edits of a hint, the last first, if they can be made together.
    pub open spec fn hint_edits(&self, hint_index: int) -> Option<Seq<(int, int, Seq<u8>)>> {
        if hint_index < self.lsp.inlay_hints@.len() {
            match self.lsp.inlay_hints@[hint_index].text_edits {
                Some(edits) => normal_edits(self.bytes(), edits@),
                None => None,
            }
        } else {
            None
        }
    }

    /// What activating a part of a hint comes to.
    pub fn activate_inlay_hint_at(
        &mut self,
        provider: Option<bool>,
        hint_index: usize,
        part_index: usize,
    ) -> (step: InlayHintStep)
        requires
            old(self).lsp.hints_wf(),
        ensures
            is_hint_step(
                old(self).lsp,
                final(self).lsp,
                provider,
                hint_index as int,
                PendingInlayHintAction::Activate {
                    identity: InlayHintIdentity { hint_index, part_index },
                },
                step,
            ),
            final(self).lsp.hints_wf(),
            *final(self) == (InputState { lsp: final(self).lsp, ..*old(self) }),
    {
        let identity = InlayHintIdentity { hint_index, part_index };
        self.resolve_or_perform_inlay_hint_action(
            provider,
            hint_index,
            PendingInlayHintAction::Activate { identity },
        )
    }

    /// What applying the edits of a hint comes to.
    pub fn apply_inlay_hint_at(&mut self, provider: Option<bool>, hint_index: usize) -> (step:
        InlayHintStep)
        requires
            old(self).lsp.hints_wf(),
        ensures
            is_hint_step(
                old(self).lsp,
                final(self).lsp,
                provider,
                hint_index as int,
                PendingInlayHintAction::Apply { hint_index },
                step,
            ),
            final(self).lsp.hints_wf(),
            *final(self) == (InputState { lsp: final(self).lsp, ..*old(self) }),
    {
        self.resolve_or_perform_inlay_hint_action(
            provider,
            hint_index,
            PendingInlayHintAction::Apply { hint_index },
        )
    }

    /// The pointer is over a part of a hint. With the modifier held, a part that
    /// leads somewhere becomes the active one.
    pub fn handle_inlay_hint_mouse_move(
        &mut self,
        provider: Option<bool>,
        identity: InlayHintIdentity,
        modifier: bool,
    ) -> (step: InlayHintStep)
        requires
            old(self).lsp.hints_wf(),
        ensures
            is_hint_step(
                (Lsp {
                    active_inlay_hint: match part_at(old(self).lsp, identity) {
                        Some(part) => if modifier && (part.location is Some || part.command is Some) {
                            Some(identity)
                        } else {
                            None
                        },
                        None => None,
                    },
                    ..old(self).lsp
                }),
                final(self).lsp,
                provider,
                identity.hint_index as int,
                PendingInlayHintAction::Hover { identity },
                step,
            ),
            final(self).lsp.hints_wf(),
            *final(self) == (InputState { lsp: final(self).lsp, ..*old(self) }),
    {
        let interactive = if identity.hint_index < self.lsp.inlay_hints.len() {
            match &self.lsp.inlay_hints[identity.hint_index].label {
                InlayHintLabel::Whole { label: _ } => false,
                InlayHintLabel::Parts { parts } => identity.part_index < parts.len() && (
                parts[identity.part_index].location.is_some()
                    || parts[identity.part_index].command.is_some()),
            }
        } else {
            false
        };
        self.lsp.active_inlay_hint = if interactive && modifier {
            Some(identity)
        } else {
            None
        };
        self.resolve_or_perform_inlay_hint_action(
            provider,
            identity.hint_index,
            PendingInlayHintAction::Hover { identity },
        )
    }

    /// Returns whether there was an active part.
    pub fn clear_active_inlay_hint(&mut self) -> (cleared: bool)
        ensures
            cleared == (old(self).lsp.active_inlay_hint is Some),
            *final(self) == (InputState {
                lsp: Lsp { active_inlay_hint: None, ..old(self).lsp },
                ..*old(self)
            }),
    {
        let cleared = self.lsp.active_inlay_hint.is_some();
        self.lsp.active_inlay_hint = None;
        cleared
    }

    /// A click on a part of a hint: two apply its edits, one with the modifier
    /// held activates the part.
    pub fn handle_click_inlay_hint(
        &mut self,
        provider: Option<bool>,
        identity: InlayHintIdentity,
        left_button: bool,
        click_count: usize,
        modifier: bool,
    ) -> (step: InlayHintStep)
        requires
            old(self).lsp.hints_wf(),
        ensures
            if !left_button || (click_count < 2 && !modifier) {
                step is Refuse && final(self).lsp == old(self).lsp
            } else {
                is_hint_step(
                    old(self).lsp,
                    final(self).lsp,
                    provider,
                    identity.hint_index as int,
                    if click_count >= 2 {
                        PendingInlayHintAction::Apply { hint_index: identity.hint_index }
                    } else {
                        PendingInlayHintAction::Activate { identity }
                    },
                    step,
                )
            },
            final(self).lsp.hints_wf(),
            *final(self) == (InputState { lsp: final(self).lsp, ..*old(self) }),
    {
        if !left_button {
            return InlayHintStep::Refuse;
        }
        if click_count >= 2 {
            return self.apply_inlay_hint_at(provider, identity.hint_index);
        }
        if modifier {
            return self.activate_inlay_hint_at(
                provider,
                identity.hint_index,
                identity.part_index,
            );
        }
        InlayHintStep::Refuse
    }
}

/// The edits of a hint that can be made together can be made one after the
/// other: they lie in the text and none reaches into the next.
pub proof fn law_hint_edits_are_ordered(t: Seq<u8>, edits: Seq<TextEdit>)
    requires
        valid_utf8(t),
        normal_edits(t, edits) is Some,
    ensures
        edit::edits_ordered((normal_edits(t, edits)->Some_0).reverse(), t.len() as int),
{
    let exact = exact_edits(t, edits, edits.len() as int)->Some_0;
    let sorted = edit::sorted_edits(exact);
    lemma_exact_edits(t, edits, edits.len() as int);
    edit::lemma_sorted_edits(exact, t.len() as int);
    assert(!edit::has_overlap(sorted)) by {
        if edit::has_overlap(sorted) {
            let i = choose|i: int|
                0 <= i < sorted.len() - 1 && #[trigger] edit::overlaps_next(sorted, i);
            assert(conflicts_next(sorted, i));
        }
    }
    edit::lemma_edits_ordered(sorted, t.len() as int);
    assert((normal_edits(t, edits)->Some_0).reverse() =~= sorted);
}

proof fn lemma_exact_edits(t: Seq<u8>, edits: Seq<TextEdit>, n: int)
    requires
        valid_utf8(t),
        0 <= n <= edits.len(),
        exact_edits(t, edits, n) is Some,
    ensures
        (exact_edits(t, edits, n)->Some_0).len() == n,
        forall|i: int|
            #![trigger (exact_edits(t, edits, n)->Some_0)[i]]
            0 <= i < n ==> 0 <= (exact_edits(t, edits, n)->Some_0)[i].0 <= (exact_edits(
                t,
                edits,
                n,
            )->Some_0)[i].1 <= t.len(),
    decreases n,
{
    if n > 0 {
        lemma_exact_edits(t, edits, n - 1);
        crate::lsp::position::lemma_position_offset(t, edits[n - 1].range.start);
        crate::lsp::position::lemma_position_offset(t, edits[n - 1].range.end);
    }
}

} // verus!
