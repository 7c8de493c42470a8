use editor_input::lsp::linked_editing::{
    minimal_replacement, regex_matches_entire_value, track_ranges_for_edit,
    validate_linked_editing_ranges, LinkedEditingRanges,
};
use editor_input::lsp::position::TextRange;
use editor_input::{Document, EditorSelection, InputMode, InputState, Position};
use ropey::Rope;

fn document(text: &str) -> Document {
    Document::new(text.to_string())
}

fn on_row(start: u32, end: u32) -> TextRange {
    TextRange::new(Position::new(0, start), Position::new(0, end))
}

fn response(ranges: &[(u32, u32)], word_pattern: Option<&str>) -> LinkedEditingRanges {
    LinkedEditingRanges {
        ranges: ranges
            .iter()
            .map(|(start, end)| on_row(*start, *end))
            .collect(),
        word_pattern: word_pattern.map(str::to_string),
    }
}

#[test]
fn validates_identical_non_overlapping_ranges_and_selects_the_cursor_range() {
    let text = document("<name></name>");
    let validated = validate_linked_editing_ranges(
        &text,
        9,
        response(&[(1, 5), (8, 12)], Some(r"^[a-z]+$")),
    )
    .unwrap();
    assert_eq!(validated.ranges, vec![8..12, 1..5]);
    assert_eq!(validated.word_pattern.as_deref(), Some(r"^[a-z]+$"));
    assert!(regex_matches_entire_value(&validated.regex, "renamed"));
    assert!(!regex_matches_entire_value(&validated.regex, "not valid"));

    let first_range_at_end = validate_linked_editing_ranges(
        &text,
        5,
        response(&[(1, 5), (8, 12)], Some(r"^[a-z]+$")),
    )
    .expect("a caret at the end of a linked range remains inside that range");
    assert_eq!(first_range_at_end.ranges, vec![1..5, 8..12]);
}

#[test]
fn rejects_malformed_overlapping_different_or_unmappable_ranges() {
    let text = document("<name></name>");
    assert!(validate_linked_editing_ranges(&text, 2, response(&[(1, 5)], None)).is_none());
    assert!(validate_linked_editing_ranges(&text, 2, response(&[(1, 5), (4, 8)], None)).is_none());
    assert!(validate_linked_editing_ranges(&text, 2, response(&[(1, 5), (7, 11)], None)).is_none());
    assert!(validate_linked_editing_ranges(&text, 2, response(&[(1, 5), (8, 99)], None)).is_none());
}

#[test]
fn validates_scalar_boundaries_after_utf16_is_mapped_by_the_host() {
    let text = document("<🦀></🦀>");
    let validated = validate_linked_editing_ranges(
        &text,
        1,
        LinkedEditingRanges {
            ranges: vec![on_row(1, 2), on_row(5, 6)],
            word_pattern: Some(r"^.$".to_string()),
        },
    )
    .unwrap();
    assert_eq!(validated.ranges, vec![1..5, 8..12]);
}

#[test]
fn minimal_replacement_preserves_unicode_boundaries() {
    assert_eq!(
        minimal_replacement("alpha🦀omega", "alpha🚀omega"),
        (5..9, "🚀".to_string())
    );
    assert_eq!(
        minimal_replacement("name", "named"),
        (4..4, "d".to_string())
    );
    assert_eq!(minimal_replacement("named", "name"), (4..5, "".to_string()));
}

#[test]
fn range_tracking_shifts_mirrors_and_rejects_cross_range_edits() {
    let ranges = vec![1..5, 8..12];
    let ranges = track_ranges_for_edit(&ranges, 0, &(3..3), 1).unwrap();
    assert_eq!(ranges, vec![1..6, 9..13]);
    assert!(track_ranges_for_edit(&vec![1..5, 8..12], 0, &(0..2), 1).is_none());
}

#[test]
fn a_pattern_that_does_not_compile_gives_way_to_the_default() {
    let text = document("<name></name>");
    let validated =
        validate_linked_editing_ranges(&text, 2, response(&[(1, 5), (8, 12)], Some("("))).unwrap();
    assert_eq!(validated.word_pattern, None);
    assert!(regex_matches_entire_value(&validated.regex, "name"));
    assert!(!regex_matches_entire_value("(", "name"));
}

#[test]
fn typing_in_one_range_rewrites_its_mirrors() {
    let source = "<name></name>";
    let mut state = InputState::new(source, InputMode::code_editor("html"));
    state.set_editor_selections(vec![EditorSelection::caret(5)]);
    let request = state.start_linked_editing(true).unwrap();
    assert!(state.receive_linked_editing_ranges(
        request,
        &Rope::from(source),
        Some(response(&[(1, 5), (8, 12)], None)),
    ));
    assert!(state.lsp.prepare_linked_editing_edit(&(5..5), 1));
    assert!(state.apply_buffer_edits(vec![(5..5, "s".to_string())]));
    assert!(state.synchronize_linked_editing_mirrors());
    assert_eq!(state.text.to_string(), "<names></names>");
    assert!(state.cancel_linked_editing());
    assert!(!state.cancel_linked_editing());
}

#[test]
fn what_the_texts_share_at_both_ends_is_kept_once() {
    assert_eq!(minimal_replacement("aa", "aaa"), (2..2, "a".to_string()));
    assert_eq!(minimal_replacement("aaa", "aa"), (2..3, String::new()));
    assert_eq!(minimal_replacement("abXab", "abab"), (2..3, String::new()));
    assert_eq!(minimal_replacement("abab", "ab"), (2..4, String::new()));
    assert_eq!(minimal_replacement("née", "nè"), (1..4, "è".to_string()));
}
