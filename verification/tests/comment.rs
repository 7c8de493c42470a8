use editor_input::{
    plan_toggle_block_comment_edits, plan_toggle_line_comment_edits, EditorSelection, Selection,
};
use ropey::Rope;

fn apply(source: &str, selections: &[EditorSelection], token: &str) -> String {
    let rope = Rope::from(source);
    let mut edits = plan_toggle_line_comment_edits(&rope, selections, token, 4);
    edits.sort_by_key(|(range, _)| (range.start, range.end));
    let mut result = source.to_owned();
    for (range, replacement) in edits.into_iter().rev() {
        result.replace_range(range, &replacement);
    }
    result
}

fn apply_block(
    source: &str,
    selections: &[EditorSelection],
    open: &str,
    close: &str,
) -> (String, Vec<EditorSelection>) {
    let rope = Rope::from(source);
    let plan = plan_toggle_block_comment_edits(&rope, selections, open, close)
        .expect("block-comment plan");
    let mut result = source.to_owned();
    for (range, replacement) in plan.edits.into_iter().rev() {
        result.replace_range(range, &replacement);
    }
    (result, plan.selections_after)
}

#[test]
fn toggles_a_single_line_at_its_indentation() {
    let selection = EditorSelection::caret(5);
    let commented = apply("    value", &[selection], "//");
    assert_eq!(commented, "    // value");
    assert_eq!(
        apply(&commented, &[EditorSelection::caret(8)], "//"),
        "    value"
    );
}

#[test]
fn excludes_a_selection_end_at_the_next_line_start() {
    let source = "first\nsecond\nthird";
    let selection = EditorSelection::from_anchor_and_head(0, "first\nsecond\n".len());
    assert_eq!(
        apply(source, &[selection], "//"),
        "// first\n// second\nthird"
    );
}

#[test]
fn normalizes_mixed_indentation_and_ignores_blank_lines() {
    let source = "\tfirst\n\t   \n    second";
    let selection = EditorSelection::from_anchor_and_head(0, source.len());
    assert_eq!(
        apply(source, &[selection], "#"),
        "\t# first\n\t   \n    # second"
    );
}

#[test]
fn comments_an_all_whitespace_selection() {
    let source = "\t    \n\t";
    let selection = EditorSelection::from_anchor_and_head(0, source.len());
    assert_eq!(apply(source, &[selection], "#"), "\t#     \n\t# ");
}

#[test]
fn multiple_cursors_toggle_independently() {
    let source = "// first\nsecond";
    let selections = [EditorSelection::caret(3), EditorSelection::caret(12)];
    assert_eq!(apply(source, &selections, "//"), "first\n// second");
}

#[test]
fn shared_lines_are_edited_once() {
    let source = "first\nsecond";
    let selections = [
        EditorSelection::from_anchor_and_head(0, source.len()),
        EditorSelection::caret(8),
    ];
    assert_eq!(apply(source, &selections, "//"), "// first\n// second");
}

#[test]
fn preserves_crlf_line_endings_and_unicode_offsets() {
    let source = "  alpha\r\n  βeta";
    let selection = EditorSelection::from_anchor_and_head(0, source.len());
    assert_eq!(apply(source, &[selection], "//"), "  // alpha\r\n  // βeta");
}

#[test]
fn empty_block_comment_keeps_the_caret_between_delimiters() {
    let (text, selections) = apply_block("first", &[EditorSelection::caret(2)], "/*", "*/");
    assert_eq!(text, "fi/*  */rst");
    assert_eq!(selections, vec![EditorSelection::caret(5)]);
}

#[test]
fn block_comment_preserves_a_reversed_inner_selection() {
    let selected = EditorSelection::from_anchor_and_head(5, 2);
    let (commented, selections) = apply_block("first", &[selected], "/*", "*/");
    assert_eq!(commented, "fi/* rst */");
    assert_eq!(
        selections,
        vec![EditorSelection {
            range: Selection::new(5, 8),
            reversed: true,
        }]
    );

    let (uncommented, restored) = apply_block(&commented, &selections, "/*", "*/");
    assert_eq!(uncommented, "first");
    assert_eq!(restored, vec![selected]);
}

#[test]
fn block_comment_wraps_multiline_utf8_without_changing_line_endings() {
    let source = "α\r\nβ";
    let selection = EditorSelection::from_anchor_and_head(0, source.len());
    let (text, selections) = apply_block(source, &[selection], "/*", "*/");
    assert_eq!(text, "/* α\r\nβ */");
    assert_eq!(
        selections,
        vec![EditorSelection::from_anchor_and_head(3, source.len() + 3)]
    );
}

#[test]
fn empty_block_comment_round_trips_a_shared_space_wrapper() {
    let (commented, selections) = apply_block("", &[EditorSelection::caret(0)], "/*", "*/");
    assert_eq!(commented, "/*  */");
    assert_eq!(selections, vec![EditorSelection::caret(3)]);

    let (uncommented, restored) = apply_block(&commented, &selections, "/*", "*/");
    assert_eq!(uncommented, "");
    assert_eq!(restored, vec![EditorSelection::caret(0)]);
}

#[test]
fn multiple_block_comment_carets_resolve_post_edit_offsets() {
    let selections = [EditorSelection::caret(0), EditorSelection::caret(3)];
    let (text, selections) = apply_block("a b", &selections, "/*", "*/");
    assert_eq!(text, "/*  */a b/*  */");
    assert_eq!(
        selections,
        vec![EditorSelection::caret(3), EditorSelection::caret(12)]
    );
}

#[test]
fn block_comments_round_trip_where_a_delimiter_overlaps_itself() {
    let selected = EditorSelection::from_anchor_and_head(1, 4);
    let (commented, selections) = apply_block("first", &[selected], "]]", "[[");
    assert_eq!(commented, "f]] irs [[t");
    let (uncommented, restored) = apply_block(&commented, &selections, "]]", "[[");
    assert_eq!(uncommented, "first");
    assert_eq!(restored, vec![selected]);
}

#[test]
fn block_comments_round_trip_inside_a_line_ending() {
    let selected = EditorSelection::from_anchor_and_head(1, 5);
    let (commented, selections) = apply_block("a\r\nb\r\nc", &[selected], "/*", "*/");
    assert_eq!(commented, "a/* \r\nb\r */\nc");
    let (uncommented, restored) = apply_block(&commented, &selections, "/*", "*/");
    assert_eq!(uncommented, "a\r\nb\r\nc");
    assert_eq!(restored, vec![selected]);

    let caret = EditorSelection::caret(2);
    let (commented, selections) = apply_block("a\r\nb", &[caret], "/*", "*/");
    assert_eq!(commented, "a\r/*  */\nb");
    let (uncommented, restored) = apply_block(&commented, &selections, "/*", "*/");
    assert_eq!(uncommented, "a\r\nb");
    assert_eq!(restored, vec![caret]);
}

#[test]
fn a_delimiter_that_overlaps_the_text_before_it_is_not_found_again() {
    let caret = EditorSelection::caret(1);
    let (commented, selections) = apply_block("]", &[caret], "]]", "[[");
    assert_eq!(commented, "]]]  [[");
    let (again, _) = apply_block(&commented, &selections, "]]", "[[");
    assert_ne!(again, "]");
}
