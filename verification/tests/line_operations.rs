use editor_input::{
    plan_copy_lines, plan_delete_duplicate_lines, plan_delete_lines, plan_duplicate_selections,
    plan_insert_lines, plan_join_lines, plan_move_lines, plan_reverse_lines, plan_sort_lines,
    system_line_collator, EditPlan, EditorSelection, InputMode, InputState, InsertLineDirection,
    LineDirection, TabSize,
};
use editor_input::line_operations::MAX_REORDER_LINES;
use icu_collator::{Collator, CollatorOptions};
use icu_locid::Locale;
use ropey::Rope;

fn collator(locale: &str) -> Collator {
    let locale: Locale = locale.parse().expect("test locale must be valid");
    Collator::try_new(&locale.into(), CollatorOptions::new())
        .expect("test locale must have compiled collation data")
}

fn apply_plan(source: &str, plan: &EditPlan) -> String {
    let mut result = source.to_string();
    for (range, replacement) in plan.edits.iter().rev() {
        result.replace_range(range.clone(), replacement);
    }
    result
}

#[test]
fn delete_lines_merges_adjacent_multi_selections_and_preserves_crlf() {
    let source = "one\r\ntwo\r\nthree\r\nfour";
    let two = source.find("two").unwrap();
    let three = source.find("three").unwrap();
    let selections = vec![EditorSelection::caret(two), EditorSelection::caret(three)];
    let plan = plan_delete_lines(&Rope::from(source), &selections).unwrap();

    assert_eq!(apply_plan(source, &plan), "one\r\nfour");
    assert_eq!(plan.edits.len(), 1);
    assert_eq!(plan.selections_after[0], EditorSelection::caret(two));
    assert_eq!(plan.selections_after[1], EditorSelection::caret(two));
}

#[test]
fn deleting_the_final_line_removes_its_preceding_line_ending_only() {
    let source = "one\r\ntwo";
    let two = source.find("two").unwrap();
    let plan = plan_delete_lines(&Rope::from(source), &[EditorSelection::caret(two)]).unwrap();

    assert_eq!(apply_plan(source, &plan), "one");
    assert_eq!(plan.selections_after, vec![EditorSelection::caret(3)]);
}

#[test]
fn insert_above_and_below_deduplicate_lines_and_keep_indentation() {
    let source = "fn main() {\r\n    value();\r\n}";
    let value = source.find("value").unwrap();
    let selections = vec![
        EditorSelection::caret(value),
        EditorSelection::caret(value + 2),
    ];
    let above = plan_insert_lines(&Rope::from(source), &selections, InsertLineDirection::Above)
        .unwrap();
    assert_eq!(
        apply_plan(source, &above),
        "fn main() {\r\n    \r\n    value();\r\n}"
    );
    assert_eq!(above.edits.len(), 1);
    assert_eq!(above.selections_after[0], above.selections_after[1]);

    let below = plan_insert_lines(
        &Rope::from(source),
        &[EditorSelection::caret(value)],
        InsertLineDirection::Below,
    )
    .unwrap();
    assert_eq!(
        apply_plan(source, &below),
        "fn main() {\r\n    value();\r\n    \r\n}"
    );
}

#[test]
fn insert_below_a_final_line_without_newline_adds_one_document_eol() {
    let source = "    value";
    let plan = plan_insert_lines(
        &Rope::from(source),
        &[EditorSelection::caret(source.len())],
        InsertLineDirection::Below,
    )
    .unwrap();

    assert_eq!(apply_plan(source, &plan), "    value\n    ");
    assert_eq!(
        plan.selections_after,
        vec![EditorSelection::caret(source.len() + 5)]
    );
}

#[test]
fn move_line_up_and_down_preserves_crlf_content_columns_and_final_eol_state() {
    let source = "one\r\n  two\r\nthree";
    let two = source.find("two").unwrap();
    let selection = EditorSelection::caret(two);

    let up = plan_move_lines(&Rope::from(source), &[selection], LineDirection::Up).unwrap();
    assert_eq!(apply_plan(source, &up), "  two\r\none\r\nthree");
    assert_eq!(up.selections_after, vec![EditorSelection::caret(2)]);

    let down = plan_move_lines(&Rope::from(source), &[selection], LineDirection::Down).unwrap();
    assert_eq!(apply_plan(source, &down), "one\r\nthree\r\n  two");
    assert_eq!(
        down.selections_after,
        vec![EditorSelection::caret("one\r\nthree\r\n  ".len())]
    );
}

#[test]
fn move_preserves_a_full_line_selection_ending_at_the_next_line_start() {
    let source = "alpha\nbeta\ngamma\n";
    let beta = source.find("beta").unwrap();
    let gamma = source.find("gamma").unwrap();
    let selection = EditorSelection::from_anchor_and_head(beta, gamma);
    let plan = plan_move_lines(&Rope::from(source), &[selection], LineDirection::Up).unwrap();

    assert_eq!(apply_plan(source, &plan), "beta\nalpha\ngamma\n");
    assert_eq!(
        plan.selections_after,
        vec![EditorSelection::from_anchor_and_head(0, "beta\n".len())]
    );
}

#[test]
fn copy_line_down_handles_multiple_blocks_and_a_final_line_without_eol() {
    let source = "a\nb\nc";
    let selections = vec![
        EditorSelection::caret(0),
        EditorSelection::caret(source.find('c').unwrap()),
    ];
    let plan = plan_copy_lines(&Rope::from(source), &selections, LineDirection::Down).unwrap();

    assert_eq!(apply_plan(source, &plan), "a\na\nb\nc\nc");
    assert_eq!(
        plan.selections_after,
        vec![EditorSelection::caret(2), EditorSelection::caret(8)]
    );
}

#[test]
fn copy_line_up_duplicates_a_multiline_selection_once() {
    let source = "zero\none\ntwo\nthree";
    let one = source.find("one").unwrap();
    let three = source.find("three").unwrap();
    let selection = EditorSelection::from_anchor_and_head(one, three);
    let plan = plan_copy_lines(&Rope::from(source), &[selection], LineDirection::Up).unwrap();

    assert_eq!(apply_plan(source, &plan), "zero\none\ntwo\none\ntwo\nthree");
    assert_eq!(
        plan.selections_after,
        vec![EditorSelection::from_anchor_and_head(
            one,
            one + "one\ntwo\n".len()
        )]
    );
}

#[test]
fn copy_adjacent_caret_lines_independently() {
    let source = "a\nb";
    let selections = vec![
        EditorSelection::caret(0),
        EditorSelection::caret(source.find('b').unwrap()),
    ];
    let plan = plan_copy_lines(&Rope::from(source), &selections, LineDirection::Down).unwrap();

    assert_eq!(apply_plan(source, &plan), "a\na\nb\nb");
    assert_eq!(
        plan.selections_after,
        vec![EditorSelection::caret(2), EditorSelection::caret(6)]
    );
}

#[test]
fn duplicate_non_empty_selection_selects_the_new_copy_and_preserves_direction() {
    let source = "hello";
    let selection = EditorSelection::from_anchor_and_head(4, 1);
    let plan = plan_duplicate_selections(&Rope::from(source), &[selection]).unwrap();

    assert_eq!(apply_plan(source, &plan), "hellello");
    assert_eq!(
        plan.selections_after,
        vec![EditorSelection::from_anchor_and_head(7, 4)]
    );
}

#[test]
fn duplicate_carets_copy_lines_independently_and_preserve_crlf_columns() {
    let source = "a\r\n  beta";
    let selections = vec![
        EditorSelection::caret(0),
        EditorSelection::caret(source.find("beta").unwrap() + 2),
    ];
    let plan = plan_duplicate_selections(&Rope::from(source), &selections).unwrap();

    assert_eq!(apply_plan(source, &plan), "a\r\na\r\n  beta\r\n  beta");
    assert_eq!(
        plan.selections_after,
        vec![EditorSelection::caret(3), EditorSelection::caret(18)]
    );
}

#[test]
fn reverse_single_line_selection_applies_to_document_and_excludes_trailing_empty_line() {
    let source = "alice\r\nbob\r\ncharlie\r\n";
    let charlie = source.find("charlie").unwrap();
    let selection = EditorSelection::caret(charlie + 2);
    let plan = plan_reverse_lines(&Rope::from(source), &[selection]).unwrap();

    assert_eq!(apply_plan(source, &plan), "charlie\r\nbob\r\nalice\r\n");
    assert_eq!(plan.selections_after, vec![EditorSelection::caret(2)]);
}

#[test]
fn reverse_multiple_partial_selections_preserves_columns_and_direction() {
    let source = "one\ntwo\nthree\nfour\nfive\nsix";
    let first = EditorSelection::from_anchor_and_head(1, source.find("three").unwrap() + 2);
    let four = source.find("four").unwrap();
    let six = source.find("six").unwrap();
    let second = EditorSelection::from_anchor_and_head(six + 2, four + 1);
    let plan = plan_reverse_lines(&Rope::from(source), &[first, second]).unwrap();

    assert_eq!(
        apply_plan(source, &plan),
        "three\ntwo\none\nsix\nfive\nfour"
    );
    assert_eq!(
        plan.selections_after,
        vec![
            EditorSelection::from_anchor_and_head("three\ntwo\n".len() + 1, 2,),
            EditorSelection::from_anchor_and_head(
                "three\ntwo\none\n".len() + 2,
                "three\ntwo\none\nsix\nfive\n".len() + 1,
            ),
        ]
    );
}

#[test]
fn sort_lines_uses_locale_collation_and_preserves_crlf() {
    let source = "pollo\r\npolvo\r\ncasa";
    let selection = EditorSelection::caret(source.find("pollo").unwrap() + 2);
    let plan = plan_sort_lines(
        &Rope::from(source),
        &[selection],
        &collator("es-u-co-trad"),
        false,
    )
    .unwrap();

    // Traditional Spanish orders "ll" after "lv"; a bytewise sort
    // would incorrectly leave pollo before polvo.
    assert_eq!(apply_plan(source, &plan), "casa\r\npolvo\r\npollo");
    assert_eq!(plan.selections_after, vec![selection]);
}

#[test]
fn sort_lines_tracks_selection_offsets_like_monaco() {
    let source = "first\nsecond line\nthird line\nfourth line\nfifth";
    let third = source.find("third line").unwrap();
    let fourth = source.find("fourth line").unwrap();
    let selection = EditorSelection::from_anchor_and_head(third + 2, fourth + 1);
    let plan =
        plan_sort_lines(&Rope::from(source), &[selection], &collator("en-US"), false).unwrap();

    assert_eq!(
        apply_plan(source, &plan),
        "first\nsecond line\nfourth line\nthird line\nfifth"
    );
    assert_eq!(plan.selections_after, vec![selection]);
}

#[test]
fn sort_lines_handles_disjoint_selections_and_excludes_a_next_line_start() {
    let source = "b\na\nmiddle\nd\nc";
    let middle = source.find("middle").unwrap();
    let d = source.find("\nd\n").unwrap() + 1;
    let selections = vec![
        EditorSelection::from_anchor_and_head(0, middle),
        EditorSelection::from_anchor_and_head(d, source.len()),
    ];
    let plan =
        plan_sort_lines(&Rope::from(source), &selections, &collator("en-US"), false).unwrap();

    assert_eq!(apply_plan(source, &plan), "a\nb\nmiddle\nc\nd");
    assert_eq!(plan.selections_after, selections);

    let mut selection_with_single_line = vec![EditorSelection::caret(middle + 1)];
    selection_with_single_line.extend(plan.selections_after);
    assert!(
        plan_sort_lines(
            &Rope::from(source),
            &selection_with_single_line,
            &collator("en-US"),
            false,
        )
        .is_none(),
        "one unsortable multi-cursor selection must cancel the whole action"
    );
}

#[test]
fn sort_lines_descending_reverses_the_collated_order() {
    let source = "alpha\nbeta\ngamma";
    let selection = EditorSelection::caret(0);
    let plan =
        plan_sort_lines(&Rope::from(source), &[selection], &collator("en-US"), true).unwrap();

    assert_eq!(apply_plan(source, &plan), "gamma\nbeta\nalpha");
    assert_eq!(plan.selections_after, vec![selection]);
}

#[test]
fn delete_duplicate_lines_keeps_first_occurrences_in_an_explicit_selection() {
    let source = "alpha\nbeta\nbeta\nbeta\nalpha\nomicron";
    let omicron = source.find("omicron").unwrap();
    let selection = EditorSelection::from_anchor_and_head(2, omicron + 3);
    let plan = plan_delete_duplicate_lines(&Rope::from(source), &[selection]).unwrap();
    let expected = "alpha\nbeta\nomicron";

    assert_eq!(apply_plan(source, &plan), expected);
    assert_eq!(
        plan.selections_after,
        vec![EditorSelection::from_anchor_and_head(0, expected.len())]
    );
}

#[test]
fn delete_duplicate_lines_applies_to_the_document_for_one_single_line_selection() {
    let source = "alpha\nbeta\nalpha\nomicron";
    let beta = source.find("beta").unwrap();
    let selection = EditorSelection::from_anchor_and_head(beta, beta + 1);
    let plan = plan_delete_duplicate_lines(&Rope::from(source), &[selection]).unwrap();

    assert_eq!(apply_plan(source, &plan), "alpha\nbeta\nomicron");
    assert_eq!(plan.selections_after, vec![selection]);
}

#[test]
fn delete_duplicate_lines_updates_disjoint_multi_selections_after_prior_deletions() {
    let source = "alpha\nbeta\nbeta\nomicron\n\nalpha\nalpha\nbeta";
    let omicron = source.find("omicron").unwrap();
    let second_alpha = source.match_indices("alpha").nth(1).unwrap().0;
    let final_beta = source.rfind("beta").unwrap();
    let selections = vec![
        EditorSelection::from_anchor_and_head(1, omicron + 2),
        EditorSelection::from_anchor_and_head(second_alpha + 1, final_beta + 2),
    ];
    let plan = plan_delete_duplicate_lines(&Rope::from(source), &selections).unwrap();
    let expected = "alpha\nbeta\nomicron\n\nalpha\nbeta";
    let expected_second_alpha = expected.match_indices("alpha").nth(1).unwrap().0;

    assert_eq!(apply_plan(source, &plan), expected);
    assert_eq!(
        plan.selections_after,
        vec![
            EditorSelection::from_anchor_and_head(0, "alpha\nbeta\nomicron".len()),
            EditorSelection::from_anchor_and_head(
                expected_second_alpha,
                expected_second_alpha + "alpha\nbeta".len(),
            ),
        ]
    );
}

#[test]
fn delete_duplicate_lines_preserves_crlf_case_and_a_final_line_ending() {
    let source = "b\r\na\r\nA\r\nb\r\n";
    let selection = EditorSelection::caret(0);
    let plan = plan_delete_duplicate_lines(&Rope::from(source), &[selection]).unwrap();

    assert_eq!(apply_plan(source, &plan), "b\r\na\r\nA\r\n");
    assert_eq!(plan.selections_after, vec![selection]);
}

#[test]
fn line_rewrite_planners_reject_out_of_bounds_selections_before_mapping_them() {
    let source = "a\nb";
    let invalid = EditorSelection::caret(source.len() + 1);

    assert!(plan_reverse_lines(&Rope::from(source), &[invalid]).is_none());
    assert!(
        plan_sort_lines(&Rope::from(source), &[invalid], &collator("en-US"), false,).is_none()
    );
    assert!(plan_delete_duplicate_lines(&Rope::from(source), &[invalid]).is_none());
}

#[test]
fn line_rewrite_planners_bound_explicit_ui_thread_work() {
    let source = "x\n".repeat(MAX_REORDER_LINES + 1);
    let text = Rope::from(source.as_str());
    let selection = EditorSelection::caret(0);

    assert!(plan_reverse_lines(&text, &[selection]).is_none());
    assert!(plan_sort_lines(&text, &[selection], &collator("en-US"), false).is_none());
    assert!(plan_delete_duplicate_lines(&text, &[selection]).is_none());
}

#[test]
fn join_caret_line_with_next_removes_indentation_and_places_caret_at_boundary() {
    let source = "let a = 1;\n    let b = 2;";
    let plan = plan_join_lines(
        &Rope::from(source),
        &[EditorSelection::caret(source.find('a').unwrap())],
    )
    .unwrap();

    assert_eq!(apply_plan(source, &plan), "let a = 1; let b = 2;");
    assert_eq!(
        plan.selections_after,
        vec![EditorSelection::caret("let a = 1;".len())]
    );
}

#[test]
fn join_multiline_selection_normalizes_trailing_space_and_preserves_crlf_input() {
    let source = "alpha  \r\n\tbeta\r\n\r\ngamma";
    let selection = EditorSelection::from_anchor_and_head(1, source.len() - 2);
    let plan = plan_join_lines(&Rope::from(source), &[selection]).unwrap();

    assert_eq!(apply_plan(source, &plan), "alpha beta gamma");
    assert_eq!(plan.edits.len(), 1);
    assert_eq!(plan.selections_after[0].anchor(), 1);
    assert_eq!(plan.selections_after[0].head(), "alpha beta gam".len());
}

#[test]
fn join_non_overlapping_carets_applies_one_undo_plan_and_keeps_both_cursors() {
    let source = "a\n b\nc\n d";
    let selections = vec![
        EditorSelection::caret(0),
        EditorSelection::caret(source.find('c').unwrap()),
    ];
    let plan = plan_join_lines(&Rope::from(source), &selections).unwrap();

    assert_eq!(apply_plan(source, &plan), "a b\nc d");
    assert_eq!(plan.edits.len(), 2);
    assert_eq!(
        plan.selections_after,
        vec![EditorSelection::caret(1), EditorSelection::caret(5)]
    );
}

#[test]
fn join_overlapping_caret_ranges_merge_before_editing() {
    let source = "a\nb\nc";
    let selections = vec![
        EditorSelection::caret(0),
        EditorSelection::caret(source.find('b').unwrap()),
    ];
    let plan = plan_join_lines(&Rope::from(source), &selections).unwrap();

    assert_eq!(apply_plan(source, &plan), "a b c");
    assert_eq!(plan.edits.len(), 1);
    assert_eq!(
        plan.selections_after,
        vec![EditorSelection::caret(1), EditorSelection::caret(3)]
    );
}

#[test]
fn join_on_the_final_line_moves_an_empty_caret_to_line_end_without_text_change() {
    let source = "alpha\nomega";
    let omega = source.find("omega").unwrap();
    let plan =
        plan_join_lines(&Rope::from(source), &[EditorSelection::caret(omega + 1)]).unwrap();

    assert_eq!(apply_plan(source, &plan), source);
    assert_eq!(
        plan.selections_after,
        vec![EditorSelection::caret(source.len())]
    );
}

#[test]
fn the_sort_commands_go_by_the_locale_of_the_system() {
    let mut state = InputState::new("pear\napple\nfig", InputMode::code_editor("rust"));
    assert!(state.sort_lines_ascending());
    assert_eq!(state.text.to_string(), "apple\nfig\npear");
    assert!(state.sort_lines_descending());
    assert_eq!(state.text.to_string(), "pear\nfig\napple");

    // Only a code editor sorts.
    let mode = InputMode::PlainText {
        multi_line: true,
        tab: TabSize::default(),
    };
    let mut state = InputState::new("b\na", mode);
    assert!(!state.sort_lines_ascending());
    assert!(!state.sort_lines_descending());
    assert_eq!(state.text.to_string(), "b\na");
}

#[test]
fn the_sort_commands_agree_with_the_collator_that_they_use() {
    let source = "éclair\nzebra\nEagle\neagle";
    let collator = system_line_collator().unwrap();
    for descending in [false, true] {
        let mut own = InputState::new(source, InputMode::code_editor("rust"));
        let mut given = InputState::new(source, InputMode::code_editor("rust"));
        let changed = if descending {
            own.sort_lines_descending()
        } else {
            own.sort_lines_ascending()
        };
        assert_eq!(changed, given.sort_lines(&collator, descending));
        assert_eq!(own.text.to_string(), given.text.to_string());
        assert_eq!(own.selections(), given.selections());
    }
}
