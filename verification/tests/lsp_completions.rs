use editor_input::lsp::completion_menu::{
    AcceptStep, CompletionMenu, CompletionResolutionTracker, ResolveStep,
};
use editor_input::lsp::completions::{
    completion_adjusts_indentation, completion_context_for_open_menu,
    completion_document_line_ending, completion_item_display_width, completion_line_indentation,
    completion_trigger_range, completion_word_start, primary_completion_edit,
    rank_completion_items, should_insert_commit_character, widest_item, Acceptance,
    CompletionContext, CompletionInsertMode, CompletionItem, CompletionTextEdit,
    CompletionTriggerKind, InsertTextMode,
};
use editor_input::lsp::inlay_hints::TextEdit;
use editor_input::lsp::position::TextRange;
use editor_input::lsp::ranking::{completion_match, completion_query_fragment};
use editor_input::{Document, EditorSelection, InputMode, InputState, Position};
use ropey::Rope;

fn document(text: &str) -> Document {
    Document::new(text.to_string())
}

fn on_row(start: u32, end: u32) -> TextRange {
    TextRange::new(Position::new(0, start), Position::new(0, end))
}

fn labels(items: &[CompletionItem]) -> Vec<&str> {
    items.iter().map(|item| item.label.as_str()).collect()
}

#[test]
fn manual_completion_replaces_only_the_identifier_before_the_cursor() {
    let text = document("value.Δelta_name");
    assert_eq!(completion_word_start(&text, text.len()), "value.".len());

    let punctuation = document("Type::");
    assert_eq!(
        completion_word_start(&punctuation, punctuation.len()),
        punctuation.len()
    );
}

#[test]
fn incomplete_completion_lists_retrigger_without_losing_trigger_characters() {
    let invoked = CompletionContext {
        trigger_kind: CompletionTriggerKind::Invoked,
        trigger_character: None,
    };
    assert_eq!(
        completion_context_for_open_menu(Some(invoked), true, true, "m")
            .unwrap()
            .trigger_kind,
        CompletionTriggerKind::TriggerForIncompleteCompletions
    );

    let trigger = CompletionContext {
        trigger_kind: CompletionTriggerKind::TriggerCharacter,
        trigger_character: Some(".".into()),
    };
    assert_eq!(
        completion_context_for_open_menu(Some(trigger.clone()), true, true, "."),
        Some(trigger)
    );
    assert_eq!(
        completion_context_for_open_menu(None, true, true, "")
            .unwrap()
            .trigger_kind,
        CompletionTriggerKind::TriggerForIncompleteCompletions
    );
}

#[test]
fn completion_resolution_tracker_invalidates_stale_selections() {
    let mut tracker = CompletionResolutionTracker::default();
    let first = tracker.start(2);
    assert!(tracker.is_current(first, 2));

    let second = tracker.start(4);
    assert!(!tracker.is_current(first, 2));
    assert!(tracker.is_current(second, 4));
    assert!(!tracker.finish(first, 2));
    assert!(tracker.finish(second, 4));
    assert_eq!(tracker.resolving_index, None);

    let third = tracker.start(1);
    tracker.cancel();
    assert!(!tracker.is_current(third, 1));
}

#[test]
fn insert_text_replaces_the_typed_completion_prefix() {
    let text = document("value.for");
    let item = CompletionItem {
        insert_text: Some("format!".to_string()),
        ..CompletionItem::labelled("format")
    };

    assert_eq!(
        primary_completion_edit(&text, &(6..9), &item, CompletionInsertMode::Insert),
        (6..9, "format!".to_string())
    );
}

#[test]
fn completion_indentation_mode_and_document_context_match_lsp_defaults() {
    assert!(completion_adjusts_indentation(None));
    assert!(completion_adjusts_indentation(Some(
        InsertTextMode::AdjustIndentation
    )));
    assert!(!completion_adjusts_indentation(Some(InsertTextMode::AsIs)));

    let lf = document("    value\nnext");
    assert_eq!(completion_line_indentation(&lf, 9), "    ");
    assert_eq!(completion_document_line_ending(&lf).as_str(), "\n");

    let crlf = document("\tvalue\r\nnext");
    assert_eq!(completion_line_indentation(&crlf, 6), "\t");
    assert_eq!(completion_document_line_ending(&crlf).as_str(), "\r\n");
}

#[test]
fn completion_acceptance_uses_the_current_query_end() {
    assert_eq!(completion_trigger_range(Some(6), 9, 12), Some(6..12));
    assert_eq!(completion_trigger_range(Some(6), 9, 5), None);
    assert_eq!(completion_trigger_range(None, 9, 12), Some(9..12));
}

#[test]
fn completion_measurement_includes_label_details_and_description() {
    let item = CompletionItem {
        label_detail: Some("(callback)".into()),
        label_description: Some("Iterator".into()),
        detail: Some("fn map<B>".into()),
        ..CompletionItem::labelled("map")
    };
    assert_eq!(
        completion_item_display_width(&item),
        "map(callback)Iteratorfn map<B>".len() as u128
    );
}

#[test]
fn explicit_text_edit_overrides_the_trigger_range() {
    let text = document("value.for");
    let item = CompletionItem {
        text_edit: Some(CompletionTextEdit::Edit {
            range: on_row(0, 9),
            new_text: "format!(value)".to_string(),
        }),
        ..CompletionItem::labelled("format")
    };

    assert_eq!(
        primary_completion_edit(&text, &(6..9), &item, CompletionInsertMode::Insert),
        (0..9, "format!(value)".to_string())
    );
}

#[test]
fn insert_replace_completion_respects_the_editor_mode() {
    let text = document("formatValue");
    let item = CompletionItem {
        text_edit: Some(CompletionTextEdit::InsertAndReplace {
            new_text: "format".to_string(),
            insert: on_row(0, 3),
            replace: on_row(0, 11),
        }),
        ..CompletionItem::labelled("format")
    };

    assert_eq!(
        primary_completion_edit(&text, &(0..3), &item, CompletionInsertMode::Insert),
        (0..3, "format".to_string())
    );
    assert_eq!(
        primary_completion_edit(&text, &(0..3), &item, CompletionInsertMode::Replace),
        (0..11, "format".to_string())
    );
}

#[test]
fn commit_character_is_inserted_once_and_overtypes_an_existing_character() {
    let text = document("format value");
    assert!(should_insert_commit_character(&text, 6, "format", "("));
    assert!(!should_insert_commit_character(&text, 6, "format(", "("));
    let existing = document("format(value)");
    assert!(!should_insert_commit_character(&existing, 6, "format", "("));
    assert!(!should_insert_commit_character(&text, 6, "format", "::"));
}

#[test]
fn completion_ranking_filters_fuzzily_and_honors_filter_and_sort_text() {
    let (items, selected) = rank_completion_items(
        vec![
            CompletionItem {
                filter_text: Some("dr".into()),
                sort_text: Some("b".into()),
                ..CompletionItem::labelled("display_name")
            },
            CompletionItem {
                filter_text: Some("dr".into()),
                sort_text: Some("a".into()),
                preselect: true,
                ..CompletionItem::labelled("DebugRepresentation")
            },
            CompletionItem::labelled("unrelated"),
        ],
        ".dr",
    );
    assert_eq!(labels(&items), ["DebugRepresentation", "display_name"]);
    assert_eq!(selected, 0);
}

#[test]
fn completion_ranking_uses_sort_text_for_equal_empty_query_scores() {
    let (items, selected) = rank_completion_items(
        vec![
            CompletionItem {
                sort_text: Some("002".into()),
                ..CompletionItem::labelled("zebra")
            },
            CompletionItem {
                sort_text: Some("001".into()),
                preselect: true,
                ..CompletionItem::labelled("alpha")
            },
        ],
        "::",
    );
    assert_eq!(items[0].label, "alpha");
    assert_eq!(items[1].label, "zebra");
    assert_eq!(selected, 0);
}

#[test]
fn completion_match_returns_utf8_safe_highlight_ranges() {
    let (_, ranges) = completion_match("éx", "éclair_x").unwrap();
    assert_eq!(ranges, vec![0..2, 8..9]);
    for range in ranges {
        assert!("éclair_x".is_char_boundary(range.start));
        assert!("éclair_x".is_char_boundary(range.end));
    }
}

#[test]
fn the_query_is_the_identifier_behind_the_last_punctuation() {
    assert_eq!(completion_query_fragment("value.na"), "na");
    assert_eq!(completion_query_fragment("::"), "");
    assert!(completion_match("zz", "abc").is_none());
}

#[test]
fn a_focused_item_is_resolved_once() {
    let mut menu = CompletionMenu::new();
    menu.show(
        3,
        vec![
            CompletionItem::labelled("alpha"),
            CompletionItem::labelled("beta"),
        ],
        false,
    );
    assert!(menu.is_open());
    let request = menu.resolve_selected_item(Some(0)).unwrap();
    assert!(menu.resolve_selected_item(Some(0)).is_none());
    let detailed = CompletionItem {
        detail: Some("detail".to_string()),
        ..CompletionItem::labelled("alpha")
    };
    assert!(menu.receive_resolved_item(request, detailed.clone()));
    assert_eq!(menu.items[0].detail.as_deref(), Some("detail"));
    assert!(!menu.receive_resolved_item(request, detailed));
    assert!(menu.resolve_selected_item(Some(0)).is_none());
}

#[test]
fn a_stale_resolution_changes_nothing() {
    let mut menu = CompletionMenu::new();
    menu.show(
        0,
        vec![
            CompletionItem::labelled("alpha"),
            CompletionItem::labelled("beta"),
        ],
        false,
    );
    let stale = menu.resolve_selected_item(Some(0)).unwrap();
    assert!(menu.resolve_selected_item(Some(1)).is_none());
    menu.selected_index = Some(1);
    let current = menu.resolve_selected_item(Some(1)).unwrap();
    let detailed = |label: &str| CompletionItem {
        detail: Some("detail".to_string()),
        ..CompletionItem::labelled(label)
    };
    assert!(!menu.receive_resolved_item(stale, detailed("alpha")));
    assert_eq!(menu.items[0].detail, None);
    assert!(menu.receive_resolved_item(current, detailed("beta")));
    assert_eq!(menu.items[1].detail.as_deref(), Some("detail"));
}

#[test]
fn accepting_an_item_says_what_to_replace() {
    let mut menu = CompletionMenu::new();
    menu.show(0, vec![CompletionItem::labelled("alpha")], false);
    assert_eq!(
        menu.accept_selected(2),
        AcceptStep::Insert {
            index: 0,
            range: 0..2,
            resolve: ResolveStep::Request,
        }
    );
    let mut empty = CompletionMenu::new();
    assert_eq!(empty.accept_selected(2), AcceptStep::Ignore);
}

#[test]
fn an_accepted_item_is_one_edit_with_its_additional_ones() {
    let mut state = InputState::new("fo", InputMode::code_editor("rust"));
    state.set_editor_selections(vec![EditorSelection::caret(2)]);
    let item = CompletionItem {
        additional_text_edits: vec![TextEdit {
            range: on_row(0, 0),
            new_text: "use std;\n".to_string(),
        }],
        ..CompletionItem::labelled("format")
    };
    let requested = Rope::from("fo");
    let outcome = state.accept_completion(&requested, 2, &item, (0..2, "format".to_string()));
    assert_eq!(outcome, Acceptance::Complete);
    assert_eq!(state.text.to_string(), "use std;\nformat");
    let outcome = state.accept_completion(&requested, 2, &item, (0..2, "format".to_string()));
    assert_eq!(outcome, Acceptance::Moved);
}

#[test]
fn the_widest_item_is_the_first_of_the_longest() {
    let items = vec![
        CompletionItem::labelled("ab"),
        CompletionItem::labelled("abcd"),
        CompletionItem::labelled("wxyz"),
    ];
    assert_eq!(completion_item_display_width(&items[1]), 4);
    assert!(widest_item(&items) > 0);
}

#[test]
fn a_stale_request_stays_refused() {
    let mut tracker = CompletionResolutionTracker::default();
    let first = tracker.start(3);
    assert!(tracker.is_current(first, 3));
    tracker.cancel();
    for index in [3, 4, 3] {
        assert!(!tracker.is_current(first, 3));
        assert!(!tracker.finish(first, 3));
        let next = tracker.start(index);
        assert!(tracker.finish(next, index));
        assert!(!tracker.finish(next, index));
    }
    assert!(!tracker.is_current(first, 3));
}
