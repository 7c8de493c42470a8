use editor_input::motion::{CursorMotion, MultiCursorDelete};
use editor_input::multi_cursor::MAX_EDITOR_SELECTIONS;
use editor_input::{EditorSelection, InputMode, InputState, Selection};
use ropey::Rope;

fn editor(text: &str) -> InputState {
    InputState::new(text, InputMode::code_editor("rust"))
}

fn heads(state: &InputState) -> Vec<usize> {
    state
        .selections()
        .into_iter()
        .map(|selection| selection.head())
        .collect()
}

fn ranges(state: &InputState) -> Vec<(usize, usize)> {
    state
        .selections()
        .into_iter()
        .map(|selection| (selection.range.start, selection.range.end))
        .collect()
}

fn undo(state: &mut InputState, text: &str) {
    let version = state.selection_history.last().unwrap().version;
    state.text = Rope::from(text);
    state.set_editor_selections(vec![EditorSelection::caret(0)]);
    state.restore_multi_cursor_history(version, true);
}

#[test]
fn typing_at_multiple_carets_is_one_undoable_transaction() {
    let mut state = editor("ab\nab");
    state.set_editor_selections(vec![EditorSelection::caret(2), EditorSelection::caret(5)]);
    assert!(state.replace_all_selections("X"));
    assert_eq!(state.text.to_string(), "abX\nabX");
    assert_eq!(heads(&state), vec![3, 7]);
    assert_eq!(state.selection_history.len(), 1);

    undo(&mut state, "ab\nab");
    assert_eq!(heads(&state), vec![2, 5]);
}

#[test]
fn add_cursor_below_and_overlapping_selection_normalization_are_stable() {
    let mut state = editor("ab\nab");
    state.set_editor_selections(vec![EditorSelection::caret(2)]);
    state.add_cursor_below();
    assert_eq!(heads(&state), vec![2, 5]);

    state.set_editor_selections(vec![
        EditorSelection::from_anchor_and_head(1, 4),
        EditorSelection::caret(2),
    ]);
    assert_eq!(
        state.selections(),
        vec![EditorSelection::from_anchor_and_head(1, 4)]
    );
}

#[test]
fn repeated_occurrence_selection_expands_then_grows_without_duplicates() {
    let mut state = editor("abc pizza\nabc house\nabc bar");
    state.set_editor_selections(vec![EditorSelection::caret(1)]);

    assert!(state.add_next_occurrence());
    assert_eq!(
        state.selections(),
        vec![EditorSelection::from_anchor_and_head(0, 3)]
    );
    assert!(state.add_next_occurrence());
    assert!(state.add_next_occurrence());
    assert_eq!(ranges(&state), vec![(0, 3), (10, 13), (20, 23)]);
    assert!(!state.add_next_occurrence());

    state.set_editor_selections(vec![EditorSelection::from_anchor_and_head(10, 13)]);
    assert!(state.add_previous_occurrence());
    assert_eq!(ranges(&state), vec![(10, 13), (0, 3)]);
    assert!(state.occurrence_session.is_some());
    assert!(state.clear_secondary_selections());
    assert!(state.occurrence_session.is_none());
}

#[test]
fn occurrence_selection_keeps_touching_matches_and_collapsed_word_rules() {
    let mut state = editor("abcabc");
    state.set_editor_selections(vec![EditorSelection::from_anchor_and_head(0, 3)]);
    assert!(state.add_next_occurrence());
    assert_eq!(ranges(&state), vec![(0, 3), (3, 6)]);

    let mut state = editor("test testte Test test");
    state.set_editor_selections(vec![EditorSelection::caret(1)]);
    assert!(state.add_next_occurrence());
    assert!(state.add_next_occurrence());
    assert_eq!(ranges(&state), vec![(0, 4), (17, 21)]);

    state.set_editor_selections(vec![EditorSelection::from_anchor_and_head(0, 4)]);
    assert!(state.add_next_occurrence());
    assert_eq!(ranges(&state), vec![(0, 4), (5, 9)]);
}

#[test]
fn select_all_occurrences_preserves_primary_and_whole_word_boundaries() {
    let mut state = editor("one oneX one\none");
    state.set_editor_selections(vec![EditorSelection::caret(10)]);
    assert!(state.select_all_occurrences());
    assert_eq!(ranges(&state), vec![(9, 12), (0, 3), (13, 16)]);

    let many = (0..300).map(|_| "x").collect::<Vec<_>>().join(" ");
    let mut state = editor(&many);
    let preferred = 290 * 2;
    state.set_editor_selections(vec![EditorSelection::caret(preferred)]);
    assert!(state.select_all_occurrences());
    assert_eq!(state.selections().len(), MAX_EDITOR_SELECTIONS);
    assert_eq!(
        state.selections()[0].range,
        Selection::new(preferred, preferred + 1)
    );
}

#[test]
fn add_cursors_to_line_ends_excludes_column_zero_final_line() {
    let mut state = editor("alpha\nbeta\ngamma");
    state.set_editor_selections(vec![EditorSelection::from_anchor_and_head(1, 11)]);
    assert!(state.add_cursors_to_line_ends());
    assert_eq!(heads(&state), vec![5, 10]);

    state.set_editor_selections(vec![EditorSelection::from_anchor_and_head(1, 13)]);
    assert!(state.add_cursors_to_line_ends());
    assert_eq!(heads(&state), vec![5, 10, 13]);
}

#[test]
fn completion_replaces_matching_prefixes_and_applies_additional_edits_once() {
    let mut state = editor("fo\nfo");
    state.set_editor_selections(vec![EditorSelection::caret(2), EditorSelection::caret(5)]);
    let ranges = state.multi_cursor_completion_ranges(0..2).unwrap();
    assert!(state.apply_multi_cursor_completion(
        ranges,
        "format",
        vec![(0..0, "use\n".to_string())],
    ));
    assert_eq!(state.text.to_string(), "use\nformat\nformat");
    assert_eq!(heads(&state), vec![10, 17]);

    undo(&mut state, "fo\nfo");
    assert_eq!(heads(&state), vec![2, 5]);
}

#[test]
fn backspace_deletes_at_every_caret_and_restores_selections_on_undo() {
    let mut state = editor("ab\nab");
    state.set_editor_selections(vec![EditorSelection::caret(2), EditorSelection::caret(5)]);
    assert!(state.delete_at_all_selections(MultiCursorDelete::Backward, &[]));
    assert_eq!(state.text.to_string(), "a\na");
    assert_eq!(heads(&state), vec![1, 3]);

    undo(&mut state, "ab\nab");
    assert_eq!(heads(&state), vec![2, 5]);
}

#[test]
fn selections_are_clipped_to_boundaries_and_merged() {
    let mut state = editor("é1");
    state.set_editor_selections(vec![
        EditorSelection::from_anchor_and_head(0, 1),
        EditorSelection::caret(99),
    ]);
    assert_eq!(ranges(&state), vec![(0, 2), (3, 3)]);
}

#[test]
fn every_cursor_moves() {
    let mut state = editor("aé\nbc");
    state.set_editor_selections(vec![EditorSelection::caret(1), EditorSelection::caret(4)]);
    state.move_all_cursors(CursorMotion::Horizontal { forward: true }, false);
    assert_eq!(heads(&state), vec![3, 5]);
    state.move_all_cursors(CursorMotion::LineBoundary { end: false }, true);
    assert_eq!(ranges(&state), vec![(0, 3), (4, 5)]);
    state.move_all_cursors(CursorMotion::DocumentBoundary { end: true }, false);
    assert_eq!(heads(&state), vec![6]);
}

#[test]
fn toggling_a_cursor_twice_leaves_the_selections() {
    let mut state = editor("abc");
    state.toggle_cursor_at_offset(2);
    assert_eq!(heads(&state), vec![0, 2]);
    state.toggle_cursor_at_offset(2);
    assert_eq!(heads(&state), vec![0]);
}

#[test]
fn the_selected_texts_are_copied_in_order() {
    let mut state = editor("one two three");
    state.set_editor_selections(vec![
        EditorSelection::from_anchor_and_head(8, 13),
        EditorSelection::from_anchor_and_head(0, 3),
    ]);
    assert_eq!(
        state.selected_text_for_all_selections(),
        Some("one\nthree".to_string())
    );
}

#[test]
fn overlapping_edits_are_refused() {
    let mut state = editor("abcdef");
    assert!(!state.apply_buffer_edits(vec![
        (0..3, "x".to_string()),
        (2..4, "y".to_string()),
    ]));
    assert_eq!(state.text.to_string(), "abcdef");
    assert!(state.apply_buffer_edits(vec![
        (3..4, "y".to_string()),
        (0..3, "x".to_string()),
    ]));
    assert_eq!(state.text.to_string(), "xyef");
}

#[test]
fn a_transaction_that_is_unknown_keeps_the_primary_selection() {
    let mut state = editor("abc");
    state.set_editor_selections(vec![EditorSelection::caret(1), EditorSelection::caret(3)]);
    state.restore_multi_cursor_history(77, true);
    assert_eq!(heads(&state), vec![1]);
}

#[test]
fn enter_keeps_the_indentation_of_a_code_editor() {
    let indents = vec!["  ".to_string(), String::new()];
    let mut state = editor("  a\nb");
    state.set_editor_selections(vec![EditorSelection::caret(3), EditorSelection::caret(5)]);
    let texts = state.newline_texts_for_selections(&indents);
    assert_eq!(texts, vec!["\n  ".to_string(), "\n".to_string()]);
    let ranges = vec![3..3, 5..5];
    assert!(state.replace_selection_ranges(ranges, texts));
    assert_eq!(state.text.to_string(), "  a\n  \nb\n");
    assert_eq!(heads(&state), vec![6, 9]);
}

#[test]
fn occurrences_are_looked_for_as_they_stand() {
    let mut state = InputState::new("a.b axb a.b", InputMode::code_editor("rust"));
    state.set_editor_selections(vec![EditorSelection::from_anchor_and_head(0, 3)]);
    assert!(state.select_all_occurrences());
    let mut starts: Vec<usize> = state
        .selections()
        .iter()
        .map(|selection| selection.range.start)
        .collect();
    starts.sort();
    assert_eq!(starts, vec![0, 8]);
}

#[test]
fn every_selection_lies_in_one_that_is_left() {
    let mut state = editor("aé bcd efg");
    let asked = [(8, 10), (2, 3), (4, 6), (5, 9), (0, 0)];
    state.set_editor_selections(
        asked
            .iter()
            .map(|(start, end)| EditorSelection::from_anchor_and_head(*start, *end))
            .collect(),
    );
    let left = ranges(&state);
    assert_eq!(left, vec![(4, 10), (0, 0), (1, 3)]);
    for (start, end) in asked {
        assert!(left.iter().any(|range| range.0 <= start && end <= range.1));
    }
}
