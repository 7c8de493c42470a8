//! What is shown of the lists that language servers give.

use crate::chars;
use crate::folding::FoldRange;
use crate::indent;
use crate::lsp::code_actions;
use crate::lsp::code_actions::{CodeAction, CodeActionTrigger};
use crate::lsp::code_lens;
use crate::lsp::code_lens::CodeLens;
use crate::lsp::document_colors;
use crate::lsp::document_colors::ColorInformation;
use crate::lsp::document_highlights;
use crate::lsp::document_highlights::DocumentHighlight;
use crate::lsp::document_links;
use crate::lsp::document_links::DocumentLink;
use crate::lsp::folding_ranges;
use crate::lsp::folding_ranges::FoldingRange;
use crate::lsp::hover;
use crate::lsp::hover::{HoverKeyStep, HoverPopoverScroll};
use crate::lsp::inlay_hints;
use crate::lsp::inlay_hints::{
    InlayHint, InlayHintIdentity, InlayHintLabel, InlayHintLabelPart,
};
use crate::lsp::items;
use crate::lsp::position;
use crate::lsp::range_laws;
use crate::order;
use crate::text_laws;
use crate::text;
use std::ops::Range;
use vstd::prelude::*;

verus! {

/// The lenses that are shown on a line are those that start on it, one for each, in
/// their order and numbered from zero.
#[verifier::rlimit(30)]
pub proof fn law_lenses_on_line(lenses: Seq<CodeLens>, line: int, n: int, k: int, i: int)
    requires
        0 <= n <= lenses.len(),
    ensures
        ({
            let shown = code_lens::lenses_on_line(lenses, line, n);
            &&& 0 <= k < shown.len() ==> shown[k].index == k && shown[k].line == line
                && shown[k].lens.range.start.line == line && lenses.take(n).contains(shown[k].lens)
            &&& 0 <= i < n && lenses[i].range.start.line == line ==> exists|j: int|
                0 <= j < shown.len() && (#[trigger] shown[j]).lens == lenses[i]
        }),
    decreases n,
{
    if n > 0 {
        let before = code_lens::lenses_on_line(lenses, line, n - 1);
        let shown = code_lens::lenses_on_line(lenses, line, n);
        law_lenses_on_line(lenses, line, n - 1, k, i);
        if 0 <= k < shown.len() {
            if k < before.len() {
                assert(shown[k] == before[k]);
                let j = choose|j: int|
                    0 <= j < n - 1 && #[trigger] lenses.take(n - 1)[j] == before[k].lens;
                assert(lenses.take(n)[j] == shown[k].lens);
            } else {
                assert(lenses.take(n)[n - 1] == shown[k].lens);
            }
        }
        if 0 <= i < n && lenses[i].range.start.line == line {
            if i < n - 1 {
                let j = choose|j: int|
                    0 <= j < before.len() && (#[trigger] before[j]).lens == lenses[i];
                assert(shown[j] == before[j]);
            } else {
                assert(shown[before.len() as int].lens == lenses[i]);
            }
        }
    }
}

/// A title that is too long is cut, and a mark says so.
pub proof fn law_shortened_text(s: Seq<char>, most: int)
    requires
        0 <= most,
    ensures
        s.len() <= most ==> chars::ellipsized(s, most) == s,
        s.len() > most ==> chars::ellipsized(s, most).len() == most + 1 && chars::ellipsized(
            s,
            most,
        ).drop_last() == s.take(most) && chars::ellipsized(s, most).last() == '\u{2026}',
{
    if s.len() > most {
        assert(s.take(most).push('\u{2026}').drop_last() =~= s.take(most));
    }
}

/// A color is shown where its rows and those on screen have one in common.
pub proof fn law_visible_colors(
    t: Seq<u8>,
    colors: Seq<ColorInformation>,
    rows: Range<usize>,
    n: int,
    i: int,
)
    requires
        0 <= i < n <= colors.len(),
        colors[i].range.start.line <= rows.end,
        rows.start <= colors[i].range.end.line,
    ensures
        document_colors::visible_colors(t, colors, rows, n).contains(
            (
                position::position_offset(t, colors[i].range.start),
                position::position_offset(t, colors[i].range.end),
                colors[i].color,
            ),
        ),
    decreases n,
{
    let own = (
        position::position_offset(t, colors[i].range.start),
        position::position_offset(t, colors[i].range.end),
        colors[i].color,
    );
    let before = document_colors::visible_colors(t, colors, rows, n - 1);
    let shown = document_colors::visible_colors(t, colors, rows, n);
    if i < n - 1 {
        law_visible_colors(t, colors, rows, n - 1, i);
        let j = choose|j: int| 0 <= j < before.len() && before[j] == own;
        assert(shown[j] == own);
    } else {
        assert(shown.last() == own);
    }
}

/// A color on rows that are not on screen is not shown.
pub proof fn law_unseen_colors(t: Seq<u8>, colors: Seq<ColorInformation>, rows: Range<usize>, n: int)
    requires
        0 <= n <= colors.len(),
        forall|i: int|
            0 <= i < n ==> (#[trigger] colors[i]).range.start.line > rows.end
                || colors[i].range.end.line < rows.start,
    ensures
        document_colors::visible_colors(t, colors, rows, n).len() == 0,
    decreases n,
{
    if n > 0 {
        law_unseen_colors(t, colors, rows, n - 1);
        assert(colors[n - 1].range.start.line > rows.end || colors[n - 1].range.end.line
            < rows.start);
    }
}

/// A highlight that is not empty is shown where its rows and those on screen have one
/// in common.
pub proof fn law_visible_highlights(
    t: Seq<u8>,
    highlights: Seq<DocumentHighlight>,
    rows: Range<usize>,
    n: int,
    i: int,
)
    requires
        0 <= i < n <= highlights.len(),
        highlights[i].range.start.line <= rows.end,
        rows.start <= highlights[i].range.end.line,
        position::position_offset(t, highlights[i].range.start) < position::position_offset(
            t,
            highlights[i].range.end,
        ),
    ensures
        document_highlights::visible_highlights(t, highlights, rows, n).contains(
            (
                position::position_offset(t, highlights[i].range.start),
                position::position_offset(t, highlights[i].range.end),
                highlights[i].kind,
            ),
        ),
    decreases n,
{
    let own = (
        position::position_offset(t, highlights[i].range.start),
        position::position_offset(t, highlights[i].range.end),
        highlights[i].kind,
    );
    let before = document_highlights::visible_highlights(t, highlights, rows, n - 1);
    let shown = document_highlights::visible_highlights(t, highlights, rows, n);
    if i < n - 1 {
        law_visible_highlights(t, highlights, rows, n - 1, i);
        let j = choose|j: int| 0 <= j < before.len() && before[j] == own;
        assert(shown[j] == own);
    } else {
        assert(shown.last() == own);
    }
}

/// A highlight on rows that are not on screen is not shown.
pub proof fn law_unseen_highlights(
    t: Seq<u8>,
    highlights: Seq<DocumentHighlight>,
    rows: Range<usize>,
    n: int,
)
    requires
        0 <= n <= highlights.len(),
        forall|i: int|
            0 <= i < n ==> (#[trigger] highlights[i]).range.start.line > rows.end
                || highlights[i].range.end.line < rows.start,
    ensures
        document_highlights::visible_highlights(t, highlights, rows, n).len() == 0,
    decreases n,
{
    if n > 0 {
        law_unseen_highlights(t, highlights, rows, n - 1);
        assert(highlights[n - 1].range.start.line > rows.end || highlights[n - 1].range.end.line
            < rows.start);
    }
}

/// A link is shown where it and the visible part of the text have something in common.
pub proof fn law_visible_links(
    t: Seq<u8>,
    links: Seq<DocumentLink>,
    active: Option<DocumentLink>,
    visible: Range<usize>,
    n: int,
    i: int,
)
    requires
        0 <= i < n <= links.len(),
        position::position_offset(t, links[i].range.start) < visible.end,
        visible.start < position::position_offset(t, links[i].range.end),
    ensures
        ({
            let shown = document_links::visible_links(t, links, active, visible, n);
            exists|j: int|
                0 <= j < shown.len() && (#[trigger] shown[j]).0 == position::position_offset(
                    t,
                    links[i].range.start,
                ) && shown[j].1 == position::position_offset(t, links[i].range.end)
        }),
    decreases n,
{
    let before = document_links::visible_links(t, links, active, visible, n - 1);
    let shown = document_links::visible_links(t, links, active, visible, n);
    let a = position::position_offset(t, links[i].range.start);
    let b = position::position_offset(t, links[i].range.end);
    if i < n - 1 {
        law_visible_links(t, links, active, visible, n - 1, i);
        let j = choose|j: int|
            0 <= j < before.len() && (#[trigger] before[j]).0 == a && before[j].1 == b;
        assert(shown[j] == before[j]);
    } else {
        assert(shown[before.len() as int].0 == a);
    }
}

/// Every range of more than one line that lies in the text can be folded, as far as
/// there are not too many.
pub proof fn law_foldable_ranges(t: Seq<u8>, ranges: Seq<FoldingRange>, i: int)
    requires
        0 <= i < ranges.len() <= folding_ranges::MAX_FOLDING_RANGES,
        ranges[i].start_line < ranges[i].end_line <= text_laws::feeds(t),
    ensures
        folding_ranges::normal_folds(t, ranges).contains(
            (FoldRange {
                start_line: ranges[i].start_line as usize,
                end_line: ranges[i].end_line as usize,
            }),
        ),
{
    let n = ranges.len() as int;
    let own = FoldRange {
        start_line: ranges[i].start_line as usize,
        end_line: ranges[i].end_line as usize,
    };
    assert(t.take(t.len() as int) =~= t);
    text_laws::lemma_feeds(t, t.len() as int);
    let kept = folding_ranges::foldable(t, ranges, n);
    lemma_foldable(t, ranges, n, i);
    let k = choose|k: int| 0 <= k < kept.len() && kept[k] == own;
    let keys = folding_ranges::fold_keys(kept);
    let places = order::sorted_order(keys, kept.len() as int);
    order::lemma_sorted_order(keys, kept.len() as int);
    assert(places.contains(k));
    let j = choose|j: int| 0 <= j < places.len() && places[j] == k;
    let sorted = items::picked(kept, places);
    assert(sorted[j] == own);
    lemma_without_repeats(sorted, sorted.len() as int, j);
}

proof fn lemma_foldable(t: Seq<u8>, ranges: Seq<FoldingRange>, n: int, i: int)
    requires
        0 <= i < n <= ranges.len(),
        ranges[i].start_line < ranges[i].end_line < text::line_count(t),
    ensures
        folding_ranges::foldable(t, ranges, n).contains(
            (FoldRange {
                start_line: ranges[i].start_line as usize,
                end_line: ranges[i].end_line as usize,
            }),
        ),
    decreases n,
{
    let own = FoldRange {
        start_line: ranges[i].start_line as usize,
        end_line: ranges[i].end_line as usize,
    };
    let before = folding_ranges::foldable(t, ranges, n - 1);
    let now = folding_ranges::foldable(t, ranges, n);
    if i < n - 1 {
        lemma_foldable(t, ranges, n - 1, i);
        let j = choose|j: int| 0 <= j < before.len() && before[j] == own;
        assert(now[j] == own);
    } else {
        assert(now.last() == own);
    }
}

proof fn lemma_without_repeats(ranges: Seq<FoldRange>, n: int, i: int)
    requires
        0 <= i < n <= ranges.len(),
    ensures
        folding_ranges::without_repeats(ranges, n).contains(ranges[i]),
    decreases n,
{
    let before = folding_ranges::without_repeats(ranges, n - 1);
    let now = folding_ranges::without_repeats(ranges, n);
    if i < n - 1 {
        lemma_without_repeats(ranges, n - 1, i);
        let j = choose|j: int| 0 <= j < before.len() && before[j] == ranges[i];
        assert(now[j] == ranges[i]);
    } else if n > 1 && ranges[n - 1] == ranges[n - 2] {
        lemma_without_repeats(ranges, n - 1, n - 2);
    } else {
        assert(now.last() == ranges[i]);
    }
}

/// Every lens that lies in the text is kept, as far as there are not too many.
pub proof fn law_kept_lenses(t: Seq<u8>, lenses: Seq<CodeLens>, i: int)
    requires
        0 <= i < lenses.len() <= code_lens::MAX_CODE_LENSES,
        lenses[i].range.start.line <= text_laws::feeds(t),
        lenses[i].range.end.line <= text_laws::feeds(t),
        ({
            let range = lenses[i].range;
            range.start.line < range.end.line || (range.start.line == range.end.line
                && range.start.character <= range.end.character)
        }),
    ensures
        code_lens::normal_lenses(t, lenses).contains(lenses[i]),
{
    assert(t.take(t.len() as int) =~= t);
    text_laws::lemma_feeds(t, t.len() as int);
    let flags = code_lens::lens_flags(t, lenses);
    let ranges = code_lens::lens_ranges(lenses);
    let n = flags.len() as int;
    assert(flags[i]);
    range_laws::law_flagged_are_chosen(flags, n, i);
    lemma_chosen(ranges, flags, code_lens::MAX_CODE_LENSES as int, i);
    let chosen = items::ordered_choice(ranges, flags, code_lens::MAX_CODE_LENSES as int);
    let k = choose|k: int| 0 <= k < chosen.len() && chosen[k] == i;
    assert(code_lens::normal_lenses(t, lenses)[k] == lenses[i]);
}

proof fn lemma_flagged_len(flags: Seq<bool>, n: int)
    requires
        0 <= n <= flags.len(),
    ensures
        items::flagged(flags, n).len() <= n,
    decreases n,
{
    if n > 0 {
        lemma_flagged_len(flags, n - 1);
    }
}

proof fn lemma_chosen(
    ranges: Seq<crate::lsp::TextRange>,
    flags: Seq<bool>,
    most: int,
    i: int,
)
    requires
        ranges.len() == flags.len() <= most,
        items::flagged(flags, flags.len() as int).contains(i),
    ensures
        items::ordered_choice(ranges, flags, most).contains(i),
{
    let n = flags.len() as int;
    let flagged = items::flagged(flags, n);
    lemma_flagged_len(flags, n);
    let own = items::picked(ranges, flagged);
    let places = items::range_order(own);
    order::lemma_sorted_order(items::range_keys(own), own.len() as int);
    let k = choose|k: int| 0 <= k < flagged.len() && flagged[k] == i;
    assert(places.contains(k));
    let j = choose|j: int| 0 <= j < places.len() && places[j] == k;
    let all = items::picked(flagged, places);
    assert(all[j] == i);
    assert(all.len() <= most);
}

/// An action that is disabled is offered only where actions were asked for by a
/// command; every other one always is.
#[verifier::rlimit(30)]
pub proof fn law_offered_actions(
    id: String,
    actions: Seq<CodeAction>,
    trigger: CodeActionTrigger,
    n: int,
    i: int,
)
    requires
        0 <= i < n <= actions.len(),
    ensures
        ({
            let items = code_actions::offered(id, actions, trigger, n);
            &&& trigger is Invoked || actions[i].disabled is None ==> exists|j: int|
                0 <= j < items.len() && (#[trigger] items[j]).action == actions[i]
            &&& !(trigger is Invoked) ==> forall|j: int|
                0 <= j < items.len() ==> (#[trigger] items[j]).action.disabled is None
            &&& trigger is Invoked ==> items.len() == n
        }),
    decreases n,
{
    let before = code_actions::offered(id, actions, trigger, n - 1);
    let now = code_actions::offered(id, actions, trigger, n);
    if i < n - 1 {
        law_offered_actions(id, actions, trigger, n - 1, i);
        if trigger is Invoked || actions[i].disabled is None {
            let j = choose|j: int|
                0 <= j < before.len() && (#[trigger] before[j]).action == actions[i];
            assert(now[j] == before[j]);
        }
    } else {
        if n > 1 {
            law_offered_actions(id, actions, trigger, n - 1, 0);
        }
        if trigger is Invoked || actions[i].disabled is None {
            assert(now[before.len() as int].action == actions[i]);
        }
    }
    if !(trigger is Invoked) {
        assert forall|j: int| 0 <= j < now.len() implies (#[trigger] now[j]).action.disabled
            is None by {
            if j < before.len() {
                assert(now[j] == before[j]);
            }
        }
    }
}

/// A hint with something to show is shown on its line, as many bytes from the start of
/// it as its position is.
#[verifier::rlimit(30)]
pub proof fn law_hints_on_line(
    t: Seq<u8>,
    hints: Seq<InlayHint>,
    active: Option<InlayHintIdentity>,
    line: int,
    n: int,
    i: int,
)
    requires
        0 <= n <= hints.len(),
    ensures
        ({
            let shown = inlay_hints::hints_on_line(t, hints, active, line, n);
            &&& 0 <= i < n && hints[i].position.line == line && inlay_hints::shown_parts(
                hints[i].label,
                i,
                active,
            ).len() > 0 ==> exists|j: int|
                0 <= j < shown.len() && (#[trigger] shown[j]).hint_index == i
                    && shown[j].buffer_offset + text::line_start(t, line)
                    == position::position_offset(t, hints[i].position)
            &&& forall|j: int|
                0 <= j < shown.len() ==> 0 <= (#[trigger] shown[j]).hint_index < n
                    && hints[shown[j].hint_index].position.line == line
        }),
    decreases n,
{
    if n > 0 {
        law_hints_on_line(t, hints, active, line, n - 1, i);
        let before = inlay_hints::hints_on_line(t, hints, active, line, n - 1);
        let shown = inlay_hints::hints_on_line(t, hints, active, line, n);
        assert forall|j: int| 0 <= j < shown.len() implies 0 <= (#[trigger] shown[j]).hint_index < n
            && hints[shown[j].hint_index].position.line == line by {
            if j < before.len() {
                assert(shown[j] == before[j]);
            }
        }
        if 0 <= i < n && hints[i].position.line == line && inlay_hints::shown_parts(
            hints[i].label,
            i,
            active,
        ).len() > 0 {
            if i < n - 1 {
                let j = choose|j: int|
                    0 <= j < before.len() && (#[trigger] before[j]).hint_index == i
                        && before[j].buffer_offset + text::line_start(t, line)
                        == position::position_offset(t, hints[i].position);
                assert(shown[j] == before[j]);
            } else {
                assert(shown[before.len() as int].hint_index == i);
            }
        }
    }
}

/// A label of one text that is not too long is shown as it is.
pub proof fn law_whole_label(
    text: Seq<char>,
    interactive: bool,
    hint_index: int,
    active: Option<InlayHintIdentity>,
)
    ensures
        ({
            let parts = inlay_hints::bounded_parts(
                seq![(text, interactive)],
                hint_index,
                active,
                1,
            ).1;
            &&& text.len() == 0 ==> parts.len() == 0
            &&& 0 < text.len() <= inlay_hints::MAX_INLAY_HINT_LABEL_CHARS ==> parts.len() == 1
                && parts[0].label == text && parts[0].interactive == interactive
            &&& text.len() > inlay_hints::MAX_INLAY_HINT_LABEL_CHARS ==> parts.len() == 1
                && parts[0].label == text.take(
                inlay_hints::MAX_INLAY_HINT_LABEL_CHARS as int,
            ).push('\u{2026}')
        }),
{
    let texts = seq![(text, interactive)];
    assert(texts[0] == (text, interactive));
    let none = inlay_hints::bounded_parts(texts, hint_index, active, 0);
    assert(none.1.len() == 0);
}

/// An empty row has the indent guides of the row above it; another has one at each
/// level that starts inside its indentation.
pub proof fn law_guides_of_rows(rows: Seq<Seq<u8>>, size: int, row: int, column: int)
    requires
        0 <= row < rows.len(),
        size > 0,
    ensures
        rows[row].len() == 0 && row > 0 ==> indent::guide_columns(rows, size, row)
            == indent::guide_columns(rows, size, row - 1),
        rows[row].len() == 0 && row == 0 ==> indent::guide_columns(rows, size, row).len() == 0,
        rows[row].len() > 0 ==> (indent::guide_columns(rows, size, row).contains(column) <==> 0
            <= column < indent::indent_columns(rows[row], 0, size) && column % size == 0),
{
    if rows[row].len() > 0 {
        lemma_width_is_not_negative(rows[row], size, 0);
        indent::law_guides_stand_at_levels(
            indent::indent_columns(rows[row], 0, size),
            size,
            column,
        );
    }
}

proof fn lemma_width_is_not_negative(s: Seq<u8>, size: int, from: int)
    requires
        size > 0,
        0 <= from,
    ensures
        0 <= indent::indent_columns(s, from, size),
    decreases s.len() - from,
{
    if from < s.len() {
        lemma_width_is_not_negative(s, size, from + 1);
    }
}

/// Several values of a hover are shown one below the other, with an empty line between
/// two of them.
pub proof fn law_hover_values(values: Seq<String>)
    ensures
        values.len() == 0 ==> hover::joined_values(values, 0).len() == 0,
        values.len() == 1 ==> hover::joined_values(values, 1) == values[0]@,
        values.len() >= 2 ==> hover::joined_values(values, values.len() as int)
            == hover::joined_values(values, values.len() - 1) + seq!['\n', '\n'] + values.last()@,
{
}

/// Keys that go up and keys that go down scroll opposite ways; held with other keys
/// they go by pages and to the ends, as the keys for those do.
#[verifier::rlimit(30)]
pub proof fn law_hover_keys(secondary: bool, alt: bool)
    ensures
        hover::key_step("up"@, false, false) == (HoverKeyStep::Scroll {
            command: HoverPopoverScroll::LineUp,
        }),
        hover::key_step("down"@, false, false) == (HoverKeyStep::Scroll {
            command: HoverPopoverScroll::LineDown,
        }),
        hover::key_step("up"@, true, alt) == hover::key_step("home"@, secondary, alt),
        hover::key_step("down"@, true, alt) == hover::key_step("end"@, secondary, alt),
        hover::key_step("up"@, false, true) == hover::key_step("pageup"@, secondary, alt),
        hover::key_step("down"@, false, true) == hover::key_step("pagedown"@, secondary, alt),
        hover::key_step("home"@, secondary, alt) == (HoverKeyStep::Scroll {
            command: HoverPopoverScroll::Top,
        }),
        hover::key_step("end"@, secondary, alt) == (HoverKeyStep::Scroll {
            command: HoverPopoverScroll::Bottom,
        }),
        hover::key_step("pageup"@, secondary, alt) == (HoverKeyStep::Scroll {
            command: HoverPopoverScroll::PageUp,
        }),
        hover::key_step("pagedown"@, secondary, alt) == (HoverKeyStep::Scroll {
            command: HoverPopoverScroll::PageDown,
        }),
        hover::key_step("escape"@, secondary, alt) == HoverKeyStep::Dismiss,
{
    reveal_strlit("up");
    reveal_strlit("down");
    reveal_strlit("home");
    reveal_strlit("end");
    reveal_strlit("pageup");
    reveal_strlit("pagedown");
    reveal_strlit("escape");
    assert("up"@.len() == 2 && "down"@.len() == 4 && "home"@.len() == 4 && "end"@.len() == 3);
    assert("pageup"@.len() == 6 && "pagedown"@.len() == 8 && "escape"@.len() == 6);
    assert("down"@[0] == 'd' && "home"@[0] == 'h');
    assert("pageup"@[0] == 'p' && "escape"@[0] == 'e');
}

/// The tooltip of a part of a label is its own, and that of the hint where it has none.
pub proof fn law_tooltip_of_part(hint: InlayHint, parts: Seq<InlayHintLabelPart>, i: int)
    requires
        hint.label matches InlayHintLabel::Parts { parts: own } && own@ == parts,
        0 <= i < parts.len(),
    ensures
        parts[i].tooltip is Some ==> inlay_hints::tooltip_of(hint, i) == parts[i].tooltip,
        parts[i].tooltip is None ==> inlay_hints::tooltip_of(hint, i) == hint.tooltip,
{
}

/// A resolved hint may not move and must have text; it adds what it has and leaves the
/// rest.
pub proof fn law_resolved_hint(original: InlayHint, resolved: InlayHint)
    ensures
        ({
            let merged = inlay_hints::merged_hint(original, resolved);
            &&& original.position != resolved.position ==> merged is None
            &&& merged matches Some(hint) ==> hint.position == original.position && hint.label
                == resolved.label && (resolved.tooltip is Some ==> hint.tooltip == resolved.tooltip)
                && (resolved.tooltip is None ==> hint.tooltip == original.tooltip) && (
            resolved.text_edits is None ==> hint.text_edits == original.text_edits) && (
            resolved.text_edits is Some ==> hint.text_edits == resolved.text_edits)
        }),
{
}

/// A target is opened as a web page where it begins with one of the two schemes.
pub proof fn law_web_targets(rest: Seq<char>, other: Seq<char>)
    ensures
        document_links::is_web_target(seq!['h', 't', 't', 'p', ':'] + rest),
        document_links::is_web_target(seq!['h', 't', 't', 'p', 's', ':'] + rest),
        other.len() < 5 ==> !document_links::is_web_target(other),
        other.len() >= 5 && !(other.take(4) == seq!['h', 't', 't', 'p'])
            ==> !document_links::is_web_target(other),
        other.len() >= 5 && other[4] != ':' && other[4] != 's' ==> !document_links::is_web_target(
            other,
        ),
{
    reveal_strlit("http:");
    reveal_strlit("https:");
    let a = seq!['h', 't', 't', 'p', ':'] + rest;
    let b = seq!['h', 't', 't', 'p', 's', ':'] + rest;
    assert("http:"@ =~= a.take(5));
    assert("https:"@ =~= b.take(6));
    assert("http:"@.is_prefix_of(a));
    assert("https:"@.is_prefix_of(b));
    if document_links::is_web_target(other) {
        if "http:"@.is_prefix_of(other) {
            assert(other.take(5) =~= "http:"@);
            assert(other[0] == other.take(5)[0] && other[1] == other.take(5)[1] && other[2]
                == other.take(5)[2] && other[3] == other.take(5)[3] && other[4] == other.take(5)[4]);
        } else {
            assert(other.take(6) =~= "https:"@);
            assert(other[0] == other.take(6)[0] && other[1] == other.take(6)[1] && other[2]
                == other.take(6)[2] && other[3] == other.take(6)[3] && other[4] == other.take(6)[4]);
        }
        assert(other.take(4) =~= seq!['h', 't', 't', 'p']);
    }
}

/// What providers offer stands in the order of the providers; one that failed adds
/// nothing.
#[verifier::rlimit(30)]
pub proof fn law_gathered_actions(
    responses: Seq<(String, Option<Vec<CodeAction>>)>,
    trigger: CodeActionTrigger,
    n: int,
)
    requires
        0 < n <= responses.len(),
    ensures
        ({
            let before = code_actions::gathered(responses, trigger, n - 1);
            let now = code_actions::gathered(responses, trigger, n);
            &&& responses[n - 1].1 is None ==> now == before
            &&& now.len() >= before.len() && now.take(before.len() as int) == before
            &&& responses[n - 1].1 matches Some(actions) ==> (trigger is Invoked ==> now.len()
                == before.len() + actions@.len())
        }),
{
    let before = code_actions::gathered(responses, trigger, n - 1);
    let now = code_actions::gathered(responses, trigger, n);
    assert(now.take(before.len() as int) =~= before);
    match responses[n - 1].1 {
        Some(actions) => {
            if actions@.len() > 0 {
                law_offered_actions(
                    responses[n - 1].0,
                    actions@,
                    trigger,
                    actions@.len() as int,
                    0,
                );
            }
        },
        None => {
            assert(now =~= before);
        },
    }
}

} // verus!
