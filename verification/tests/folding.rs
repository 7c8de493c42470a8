use editor_input::folding::{fold_candidate_for_line, unfold_candidate_for_line};
use editor_input::{EditorSelection, FoldRange, InputMode, InputState};

fn nested_candidates() -> Vec<FoldRange> {
    vec![
        FoldRange::new(0, 10),
        FoldRange::new(2, 5),
        FoldRange::new(12, 20),
    ]
}

#[test]
fn fold_selects_innermost_unfolded_range_then_parent() {
    let candidates = nested_candidates();
    assert_eq!(
        fold_candidate_for_line(3, &candidates, &[]),
        Some(FoldRange::new(2, 5))
    );
    assert_eq!(
        fold_candidate_for_line(3, &candidates, &[FoldRange::new(2, 5)]),
        Some(FoldRange::new(0, 10))
    );
}

#[test]
fn unfold_selects_innermost_folded_range() {
    let folded = vec![FoldRange::new(0, 10), FoldRange::new(2, 5)];
    assert_eq!(
        unfold_candidate_for_line(3, &folded),
        Some(FoldRange::new(2, 5))
    );
}

#[test]
fn folding_helpers_ignore_unrelated_lines() {
    let candidates = nested_candidates();
    assert_eq!(fold_candidate_for_line(11, &candidates, &[]), None);
    assert_eq!(
        unfold_candidate_for_line(11, &[FoldRange::new(0, 10)]),
        None
    );
}

fn editor_with_folds() -> InputState {
    let text = "a\nb\nc\nd\ne\n";
    let mut state = InputState::new(text, InputMode::code_editor("rust"));
    state.fold_candidates = vec![FoldRange::new(0, 4), FoldRange::new(1, 2)];
    state
}

#[test]
fn folding_at_the_selections_is_undone_by_unfolding_there() {
    let mut state = editor_with_folds();
    state.set_editor_selections(vec![EditorSelection::caret(2)]);
    assert!(state.fold_at_selections());
    assert_eq!(state.folding_snapshot().folded_ranges, vec![FoldRange::new(1, 2)]);
    assert!(state.unfold_at_selections());
    assert!(state.folding_snapshot().folded_ranges.is_empty());
    assert!(!state.unfold_at_selections());
}

#[test]
fn fold_all_closes_every_candidate_and_unfold_all_opens_them() {
    let mut state = editor_with_folds();
    assert!(state.fold_all());
    assert_eq!(state.folding_snapshot().folded_ranges.len(), 2);
    assert!(!state.fold_all());
    assert!(state.unfold_all());
    assert!(!state.unfold_all());
}

#[test]
fn folding_is_offered_where_it_changes_something() {
    let mut state = InputState::new("a\nb\nc\nd\ne", InputMode::code_editor("rust"));
    state.fold_candidates = vec![FoldRange::new(0, 3), FoldRange::new(1, 2)];
    state.set_editor_selections(vec![EditorSelection::caret(2)]);
    for folded in 0..2 {
        assert!(state.folding_snapshot().can_fold);
        assert_eq!(state.folding_snapshot().can_unfold, folded > 0);
        assert!(state.fold_at_selections());
        assert_eq!(state.folding_snapshot().folded_count, folded + 1);
    }
    assert!(!state.folding_snapshot().can_fold);
    assert!(!state.fold_at_selections());
    assert!(state.folding_snapshot().can_unfold);
    assert!(state.unfold_at_selections());
    assert_eq!(state.folding_snapshot().folded_count, 1);

    state.set_editor_selections(vec![EditorSelection::caret(8)]);
    assert!(!state.folding_snapshot().can_unfold);
    assert!(!state.unfold_at_selections());
    assert_eq!(state.folding_snapshot().folded_count, 1);
}
