use editor_input::lsp::code_lens::{
    code_lens_scroll_delta, normalize_code_lenses, unique_lens_lines, valid_lens, CodeLens, Command,
};
use editor_input::lsp::document_colors::{
    normalize_document_colors, valid_color, Color, ColorInformation,
};
use editor_input::lsp::document_highlights::{DocumentHighlight, DocumentHighlightKind};
use editor_input::lsp::document_links::{
    normalize_document_links, opens_as_web_page, DocumentLink, DocumentLinkStep,
};
use editor_input::lsp::folding_ranges::{normalize_folding_ranges, FoldingRange};
use editor_input::lsp::position::TextRange;
use editor_input::lsp::selection_ranges::{nested_selection_ranges, next_expanded_range};
use editor_input::{
    Document, EditorSelection, FoldRange, InputMode, InputState, Lsp, Position, Selection,
};
use ropey::Rope;

fn document(text: &str) -> Document {
    Document::new(text.to_string())
}

fn editor(text: &str) -> InputState {
    InputState::new(text, InputMode::code_editor("rust"))
}

fn text_range(start: (u32, u32), end: (u32, u32)) -> TextRange {
    TextRange::new(Position::new(start.0, start.1), Position::new(end.0, end.1))
}

fn lens(line: u32, title: Option<&str>) -> CodeLens {
    CodeLens {
        range: text_range((line, 0), (line, 3)),
        command: title.map(|title| Command {
            title: title.to_string(),
            command: "nova.test".to_string(),
            arguments: None,
        }),
        data: None,
    }
}

#[test]
fn code_lenses_are_grouped_by_start_line_and_titles_are_bounded() {
    let mut lsp = Lsp::default();
    lsp.code_lenses = vec![
        lens(2, Some(&"x".repeat(200))),
        lens(2, None),
        lens(7, None),
    ];

    assert_eq!(lsp.code_lens_lines(), vec![2, 7]);
    let displayed = lsp.code_lenses_on_line(2);
    assert_eq!(displayed.len(), 2);
    assert_eq!(displayed[0].index, 0);
    assert!(displayed[0].title.as_ref().unwrap().ends_with('…'));
    assert_eq!(displayed[1].title, None);
}

#[test]
fn malformed_or_out_of_document_lenses_are_rejected() {
    let text = document("one\ntwo\n");
    assert!(valid_lens(&text, &lens(1, None)));
    assert!(!valid_lens(&text, &lens(4, None)));

    let mut reversed = lens(1, None);
    reversed.range.end = Position::new(0, 0);
    assert!(!valid_lens(&text, &reversed));
}

#[test]
fn view_zone_scroll_delta_counts_unique_lenses_strictly_above_anchor() {
    let old = vec![1, 8];
    let new = vec![1, 4, 8, 12];
    let pixels = |rows: i128| rows as f32 * 16.0;

    assert_eq!(pixels(code_lens_scroll_delta(&old, &new, 8)), 16.0);
    assert_eq!(pixels(code_lens_scroll_delta(&old, &new, 1)), 0.0);
    assert_eq!(pixels(code_lens_scroll_delta(&new, &old, 8)), -16.0);
}

#[test]
fn provider_refresh_retains_cached_rows_but_edit_invalidation_drops_them() {
    let mut lsp = Lsp::default();
    lsp.code_lenses = vec![lens(2, Some("Run"))];
    let generation = lsp.code_lens_generation;

    lsp.code_lens_generation = lsp.code_lens_generation.wrapping_add(1);
    lsp.code_lens_requested_generation = None;
    assert_eq!(lsp.code_lens_lines(), vec![2]);
    assert_ne!(lsp.code_lens_generation, generation);

    lsp.invalidate_code_lenses();
    assert!(lsp.code_lens_lines().is_empty());
}

#[test]
fn a_late_reply_with_lenses_is_dropped() {
    let text = document("one\ntwo\n");
    let mut lsp = Lsp::default();
    let generation = lsp.request_code_lenses(true).unwrap();
    assert_eq!(lsp.request_code_lenses(true), None);
    assert_eq!(Lsp::default().request_code_lenses(false), None);
    lsp.invalidate_code_lenses();
    assert!(!lsp.receive_code_lenses(&text, generation, vec![lens(0, Some("Run"))], true));
    let generation = lsp.request_code_lenses(true).unwrap();
    assert!(lsp.receive_code_lenses(&text, generation, vec![lens(1, None), lens(9, None)], true));
    assert_eq!(lsp.code_lens_lines(), vec![1]);

    let request = lsp.resolve_visible_code_lens(true, 0..5).unwrap();
    assert_eq!(request.index, 0);
    assert!(lsp.resolve_visible_code_lens(true, 0..5).is_none());
    assert!(!lsp.receive_resolved_code_lens(&text, &request, lens(9, Some("Run"))));
    assert!(lsp.receive_resolved_code_lens(&text, &request, lens(1, Some("Run"))));
    assert_eq!(lsp.code_lenses()[0].title.as_deref(), Some("Run"));
}

#[test]
fn lenses_come_in_order_of_their_ranges() {
    let text = document("a\nb\nc\n");
    let normal = normalize_code_lenses(&text, vec![lens(2, None), lens(0, None), lens(8, None)]);
    assert_eq!(normal, vec![lens(0, None), lens(2, None)]);
    assert_eq!(unique_lens_lines(&normal), vec![0, 2]);
}

fn color(start: u32, end: u32, red: f32) -> ColorInformation {
    ColorInformation {
        range: text_range((0, start), (0, end)),
        color: Color {
            red: red.to_bits(),
            green: 0.5f32.to_bits(),
            blue: 0.25f32.to_bits(),
            alpha: 1.0f32.to_bits(),
        },
    }
}

#[test]
fn colors_are_sorted_bounded_and_overlaps_are_removed() {
    let text = document("#111 #222 #333\n");
    let colors = normalize_document_colors(
        &text,
        vec![color(10, 14, 0.3), color(0, 4, 0.1), color(3, 9, 0.2)],
    );

    assert_eq!(colors.len(), 2);
    assert_eq!(colors[0].range, text_range((0, 0), (0, 4)));
    assert_eq!(colors[1].range, text_range((0, 10), (0, 14)));
}

#[test]
fn invalid_positions_empty_ranges_and_non_finite_colors_are_rejected() {
    let text = document("#111\n");
    let colors = normalize_document_colors(
        &text,
        vec![
            color(0, 4, 0.1),
            color(1, 1, 0.2),
            color(0, 99, 0.3),
            color(0, 4, f32::NAN),
        ],
    );

    assert_eq!(colors, vec![color(0, 4, 0.1)]);
}

#[test]
fn cached_color_lookup_uses_scalar_columns_after_non_bmp_text() {
    let text = document("😀#111\n");
    let mut lsp = Lsp::default();
    lsp.document_colors = vec![ColorInformation {
        range: text_range((0, 1), (0, 5)),
        color: Color {
            red: 0.1f32.to_bits(),
            green: 0.2f32.to_bits(),
            blue: 0.3f32.to_bits(),
            alpha: 1.0f32.to_bits(),
        },
    }];

    assert!(lsp.document_color_at_offset(&text, 4).is_some());
    assert!(lsp.document_color_at_offset(&text, 7).is_some());
    assert!(lsp.document_color_at_offset(&text, 8).is_none());
    assert!(lsp.document_color_at_offset(&text, 3).is_none());
}

#[test]
fn a_color_is_valid_between_nought_and_one() {
    let with_red = |red: f32| color(0, 1, red).color;
    assert!(valid_color(&with_red(0.0)));
    assert!(valid_color(&with_red(1.0)));
    assert!(valid_color(&with_red(-0.0)));
    assert!(!valid_color(&with_red(-0.5)));
    assert!(!valid_color(&with_red(1.5)));
    assert!(!valid_color(&with_red(f32::INFINITY)));
    assert!(!valid_color(&with_red(f32::NEG_INFINITY)));
}

#[test]
fn document_highlights_convert_utf16_ranges_and_filter_the_viewport() {
    let text = document("let crab = \"🦀\";\ncrab\n");
    let mut lsp = Lsp::default();
    lsp.document_highlights = vec![
        DocumentHighlight {
            range: text_range((0, 4), (0, 8)),
            kind: Some(DocumentHighlightKind::Write),
        },
        DocumentHighlight {
            range: text_range((1, 0), (1, 4)),
            kind: Some(DocumentHighlightKind::Read),
        },
    ];

    let first_line = lsp.document_highlights_for_range(&text, &(0..0));
    assert_eq!(first_line.len(), 1);
    let first_range = first_line[0].0.clone();
    assert_eq!(&text.as_str()[first_range], "crab");
    assert_eq!(first_line[0].1, Some(DocumentHighlightKind::Write));

    let second_line = lsp.document_highlights_for_range(&text, &(1..1));
    assert_eq!(second_line.len(), 1);
    let second_range = second_line[0].0.clone();
    assert_eq!(&text.as_str()[second_range], "crab");
}

fn link(start: u32, end: u32, target: Option<&str>) -> DocumentLink {
    DocumentLink {
        range: text_range((0, start), (0, end)),
        target: target.map(str::to_string),
        tooltip: None,
        data: None,
    }
}

#[test]
fn links_are_bounded_sorted_and_overlaps_are_removed() {
    let text = document("alpha beta gamma\n");
    let links = normalize_document_links(
        &text,
        vec![
            link(11, 16, None),
            link(0, 5, Some("https://example.com")),
            link(4, 9, None),
        ],
    );

    assert_eq!(links.len(), 2);
    assert_eq!(links[0].range, text_range((0, 0), (0, 5)));
    assert_eq!(links[1].range, text_range((0, 11), (0, 16)));
}

#[test]
fn malformed_empty_multiline_and_out_of_document_links_are_rejected() {
    let text = document("alpha\nbeta\n");
    let across = |start: (u32, u32), end: (u32, u32)| DocumentLink {
        range: text_range(start, end),
        target: None,
        tooltip: None,
        data: None,
    };
    let mut candidates = vec![
        link(1, 1, None),
        across((0, 1), (1, 1)),
        across((8, 0), (8, 1)),
    ];
    candidates.push(link(0, 5, None));

    let normalized = normalize_document_links(&text, candidates);
    assert_eq!(normalized, vec![link(0, 5, None)]);
}

#[test]
fn a_link_is_activated_or_resolved() {
    let mut state = editor("see https://example.com now");
    let generation = state.refresh_document_links(true).unwrap();
    let target = "https://example.com";
    assert!(state.lsp.receive_document_links(
        &document("see https://example.com now"),
        generation,
        vec![link(4, 23, Some(target))],
    ));
    assert_eq!(
        state.open_document_link_at(5, Some(false)),
        Some(DocumentLinkStep::Activate {
            link: link(4, 23, Some(target))
        })
    );
    assert_eq!(state.open_document_link_at(0, Some(false)), None);
    assert!(opens_as_web_page(target));
    assert!(!opens_as_web_page("file:///etc/hosts"));
}

fn fold(start: u32, end: u32) -> FoldingRange {
    FoldingRange {
        start_line: start,
        end_line: end,
    }
}

#[test]
fn folding_ranges_are_bounded_validated_and_sorted() {
    let text = document("a\nb\nc\nd\n");
    let normalized = normalize_folding_ranges(
        &text,
        &vec![fold(2, 3), fold(0, 2), fold(4, 9), fold(1, 1)],
    );
    assert_eq!(normalized, vec![FoldRange::new(0, 2), FoldRange::new(2, 3)]);
}

#[test]
fn folding_ranges_for_another_text_are_dropped() {
    let mut state = editor("a\nb\nc\n");
    assert!(state.update_folding_ranges(true));
    assert!(!state.receive_folding_ranges(&Rope::from("other"), &vec![fold(0, 1)]));
    assert!(state.receive_folding_ranges(&Rope::from("a\nb\nc\n"), &vec![fold(0, 1)]));
    assert_eq!(state.lsp.folding_ranges, vec![FoldRange::new(0, 1)]);
}

#[test]
fn chooses_the_smallest_strictly_containing_server_range() {
    let text = document("let answer = value;");
    let chain = vec![
        text_range((0, 4), (0, 10)),
        text_range((0, 4), (0, 18)),
        text_range((0, 0), (0, 19)),
    ];
    assert_eq!(next_expanded_range(&text, &chain, &(6..6)), Some(4..10));
    assert_eq!(next_expanded_range(&text, &chain, &(4..10)), Some(4..18));
    assert_eq!(next_expanded_range(&text, &chain, &(0..19)), None);
}

#[test]
fn malformed_and_non_nested_ranges_are_ignored() {
    let text = document("abc");
    let malformed = vec![text_range((0, 8), (0, 9))];
    assert!(nested_selection_ranges(&text, &malformed).is_empty());

    let reversed = vec![text_range((0, 3), (0, 1))];
    assert!(nested_selection_ranges(&text, &reversed).is_empty());
}

#[test]
fn shrinking_brings_back_what_was_selected_before_expanding() {
    let source = "let answer = value;";
    let mut state = editor(source);
    state.set_editor_selections(vec![EditorSelection::caret(6)]);
    let current = state.selected_range;
    assert_eq!(state.expand_selection(true), Some(Position::new(0, 6)));
    assert!(state.receive_selection_ranges(
        &Rope::from(source),
        current,
        Some(vec![text_range((0, 4), (0, 10))]),
    ));
    assert_eq!(state.selected_range, Selection::new(4, 10));
    assert!(state.shrink_selection());
    assert_eq!(state.selected_range, Selection::new(6, 6));
    assert!(!state.shrink_selection());
}

#[test]
fn positions_and_offsets_name_the_same_places() {
    let text = document("aé\r\n😀b");
    assert_eq!(text.offset_to_position(3), Position::new(0, 2));
    assert_eq!(text.position_to_offset(&Position::new(0, 2)), 3);
    assert_eq!(text.position_to_offset(&Position::new(1, 1)), 9);
    assert_eq!(text.offset_to_position(9), Position::new(1, 1));
    assert_eq!(text.exact_offset(&Position::new(0, 9)), None);
    assert_eq!(text.exact_offset(&Position::new(1, 2)), Some(10));
}
