use editor_input::indent::{indent_guide_columns, plan_indent, plan_outdent, update_tab_size};
use editor_input::{EditPlan, EditorSelection, InputMode, InputState, TabSize};
use ropey::Rope;

fn apply_plan(source: &str, plan: &EditPlan) -> String {
    let mut result = source.to_string();
    for (range, replacement) in plan.edits.iter().rev() {
        result.replace_range(range.clone(), replacement);
    }
    result
}

#[test]
fn test_tab_size() {
    let tab = TabSize {
        tab_size: 2,
        hard_tabs: false,
    };
    assert_eq!(tab.to_string(), "  ");
    let tab = TabSize {
        tab_size: 4,
        hard_tabs: false,
    };
    assert_eq!(tab.to_string(), "    ");

    let tab = TabSize {
        tab_size: 2,
        hard_tabs: true,
    };
    assert_eq!(tab.to_string(), "\t");
    let tab = TabSize {
        tab_size: 4,
        hard_tabs: true,
    };
    assert_eq!(tab.to_string(), "\t");
}

#[test]
fn test_tab_size_indent_count() {
    let tab = TabSize {
        tab_size: 4,
        hard_tabs: false,
    };
    assert_eq!(tab.indent_count("abc"), 0);
    assert_eq!(tab.indent_count("  abc"), 2);
    assert_eq!(tab.indent_count("    abc"), 4);
    assert_eq!(tab.indent_count("\tabc"), 4);
    assert_eq!(tab.indent_count("  \tabc"), 6);
    assert_eq!(tab.indent_count(" \t abc  "), 6);
    assert_eq!(tab.indent_count("abc"), 0);
}

#[test]
fn runtime_tab_size_updates_the_live_editor_mode() {
    let mut mode = InputMode::code_editor("rust");
    assert!(update_tab_size(
        &mut mode,
        TabSize {
            tab_size: 4,
            hard_tabs: true,
        }
    ));
    assert_eq!(mode.tab_size().tab_size, 4);
    assert!(mode.tab_size().hard_tabs);
}

#[test]
fn inline_tab_advances_every_unicode_cursor_to_the_next_visual_tab_stop() {
    let source = "α\tb\n12345\n";
    let first = "α".len();
    let second = source.find("12345").unwrap() + 5;
    let selections = vec![
        EditorSelection::caret(first),
        EditorSelection::caret(second),
    ];
    let plan = plan_indent(
        &Rope::from(source),
        &selections,
        TabSize {
            tab_size: 4,
            hard_tabs: false,
        },
        false,
    )
    .unwrap();

    assert_eq!(apply_plan(source, &plan), "α   \tb\n12345   \n");
    assert_eq!(
        plan.selections_after,
        vec![
            EditorSelection::caret(first + 3),
            EditorSelection::caret(second + 6),
        ]
    );
}

#[test]
fn block_indent_deduplicates_lines_and_excludes_a_selection_end_at_next_line_start() {
    let source = "a\r\n\r\nb\r\n";
    let third_line = source.find('b').unwrap();
    let selections = vec![
        EditorSelection::from_anchor_and_head(0, third_line),
        EditorSelection::caret(third_line),
    ];
    let plan = plan_indent(
        &Rope::from(source),
        &selections,
        TabSize {
            tab_size: 2,
            hard_tabs: false,
        },
        true,
    )
    .unwrap();

    assert_eq!(apply_plan(source, &plan), "  a\r\n\r\n  b\r\n");
    assert_eq!(plan.selections_after[0].range.start, 0);
    assert_eq!(plan.selections_after[0].range.end, third_line + 2);
    assert_eq!(
        plan.selections_after[1],
        EditorSelection::caret(third_line + 4)
    );
}

#[test]
fn outdent_handles_spaces_tabs_crlf_and_preserves_reversed_selections() {
    let source = "    one\r\n\ttwo\n  three";
    let second = source.find("two").unwrap();
    let third = source.find("three").unwrap();
    let selections = vec![
        EditorSelection::caret(source.find("one").unwrap()),
        EditorSelection::caret(second),
        EditorSelection::from_anchor_and_head(source.len(), third),
    ];
    let plan = plan_outdent(
        &Rope::from(source),
        &selections,
        TabSize {
            tab_size: 4,
            hard_tabs: false,
        },
        false,
    )
    .unwrap();

    assert_eq!(apply_plan(source, &plan), "one\r\ntwo\nthree");
    assert!(plan.selections_after[2].reversed);
    assert_eq!(plan.selections_after[0], EditorSelection::caret(0));
    assert_eq!(plan.selections_after[1], EditorSelection::caret(5));
}

#[test]
fn outdenting_undoes_a_block_indent() {
    let mut state = InputState::new("one\ntwo\n", InputMode::code_editor("rust"));
    state.set_editor_selections(vec![EditorSelection::from_anchor_and_head(0, 7)]);
    assert!(state.indent(true));
    assert_eq!(state.text.to_string(), "  one\n  two\n");
    assert!(state.outdent(true));
    assert_eq!(state.text.to_string(), "one\ntwo\n");
    assert!(!state.outdent(true));
}

#[test]
fn a_single_line_input_does_not_indent() {
    let mode = InputMode::PlainText {
        multi_line: false,
        tab: TabSize::default(),
    };
    let mut state = InputState::new("value", mode);
    assert!(!state.indent(true));
    assert_eq!(state.text.to_string(), "value");
}

#[test]
fn guides_stand_at_each_level_and_run_through_empty_rows() {
    let rows: Vec<String> = ["", "a", "", "    b", "", "", "\t \tc", "   ", " d", "\r", ""]
        .iter()
        .map(|row| row.to_string())
        .collect();
    let none: Vec<usize> = Vec::new();
    assert_eq!(
        indent_guide_columns(&rows, TabSize::default()),
        vec![
            none.clone(),
            none.clone(),
            none.clone(),
            vec![0, 2],
            vec![0, 2],
            vec![0, 2],
            vec![0, 2, 4],
            vec![0, 2],
            vec![0],
            none.clone(),
            none,
        ]
    );
    // Empty rows have no indentation that levels could divide.
    let tab = TabSize {
        tab_size: 0,
        hard_tabs: false,
    };
    assert_eq!(indent_guide_columns(&[String::new()], tab), vec![vec![]]);
}

#[test]
fn guides_are_laid_out_for_the_rows_on_screen() {
    let mut state = InputState::new("a\n    b\n\n  c\r\n\r\n", InputMode::code_editor("rust"));
    assert_eq!(
        state.layout_indent_guides(&vec![1, 2, 3, 4, 5]),
        Some(vec![vec![0, 2], vec![0, 2], vec![0], vec![], vec![]])
    );
    // Folded rows are not on screen.
    assert_eq!(
        state.layout_indent_guides(&vec![0, 2, 3]),
        Some(vec![vec![], vec![], vec![0]])
    );
    state.set_indent_guides(false);
    assert_eq!(state.layout_indent_guides(&vec![1]), None);
}
