use editor_input::lsp::code_actions::{
    find_code_action_provider, gather_code_actions, CodeAction, CodeActionItem, CodeActionMenuStep,
    CodeActionTrigger,
};
use editor_input::lsp::diagnostics::{
    diagnostic_metadata_label, diagnostic_related_information_label, diagnostic_tag_labels,
    DiagnosticEntry, DiagnosticRelatedInformation, DiagnosticTag,
};
use editor_input::lsp::hover::{
    hover_key_step, hover_text, Hover, HoverContents, HoverKeyStep, HoverPopoverScroll, HoverStep,
};
use editor_input::lsp::inlay_hints::TextEdit;
use editor_input::lsp::position::TextRange;
use editor_input::snippet::parse_snippet;
use editor_input::{EditorSelection, InputMode, InputState, Position};

#[test]
fn diagnostic_popover_formats_rich_protocol_metadata() {
    let entry = DiagnosticEntry {
        code: Some("17".to_string()),
        source: Some("test-server".to_string()),
        message: "deprecated value".to_string(),
        tags: Some(vec![DiagnosticTag::Unnecessary, DiagnosticTag::Deprecated]),
    };

    assert_eq!(
        diagnostic_metadata_label(&entry).as_deref(),
        Some("test-server(17)")
    );
    assert_eq!(
        diagnostic_tag_labels(&entry),
        vec!["Unnecessary", "Deprecated"]
    );

    let information = DiagnosticRelatedInformation {
        uri: "file:///workspace/src/related.rs".to_string(),
        line: 3,
        character: 1,
        message: "declared here".to_string(),
    };
    assert_eq!(
        diagnostic_related_information_label(&information),
        "related.rs:4:2 — declared here"
    );
}

#[test]
fn a_diagnostic_is_labelled_by_what_it_has() {
    let entry = |source: Option<&str>, code: Option<&str>| DiagnosticEntry {
        source: source.map(str::to_string),
        code: code.map(str::to_string),
        tags: None,
        message: String::new(),
    };
    assert_eq!(diagnostic_metadata_label(&entry(None, None)), None);
    assert_eq!(
        diagnostic_metadata_label(&entry(Some("rustc"), None)).as_deref(),
        Some("rustc")
    );
    assert_eq!(
        diagnostic_metadata_label(&entry(None, Some("E1"))).as_deref(),
        Some("E1")
    );
    assert!(diagnostic_tag_labels(&entry(None, None)).is_empty());
}

fn action(title: &str, disabled: Option<&str>) -> CodeAction {
    CodeAction {
        title: title.to_string(),
        disabled: disabled.map(str::to_string),
        payload: "{}".to_string(),
    }
}

#[test]
fn actions_of_every_provider_are_gathered() {
    let responses = || {
        vec![
            (
                "first".to_string(),
                Some(vec![action("a", None), action("b", Some("no"))]),
            ),
            ("second".to_string(), None),
            ("third".to_string(), Some(vec![action("c", None)])),
        ]
    };
    let titles = |items: &[CodeActionItem]| -> Vec<String> {
        items.iter().map(|item| item.action.title.clone()).collect()
    };
    let automatic = gather_code_actions(responses(), CodeActionTrigger::Automatic);
    assert_eq!(titles(&automatic), vec!["a", "c"]);
    assert_eq!(automatic[1].provider_id, "third");
    let ids = vec!["first".to_string(), "third".to_string()];
    assert_eq!(find_code_action_provider(&ids, &automatic[1]), Some(1));
    assert_eq!(find_code_action_provider(&vec![], &automatic[1]), None);
}

#[test]
fn a_late_reply_with_actions_is_dropped() {
    let mut state = InputState::new("let a = 1;", InputMode::code_editor("rust"));
    state.set_editor_selections(vec![EditorSelection::caret(4)]);
    assert!(state.refresh_automatic_code_actions(false, true).is_none());
    let request = state.refresh_automatic_code_actions(true, true).unwrap();
    assert!(state.should_send_code_action_request(&request, true));
    let items = || {
        vec![CodeActionItem {
            provider_id: "first".to_string(),
            action: action("a", None),
        }]
    };
    assert!(state.receive_automatic_code_actions(&request, items()));
    assert_eq!(state.automatic_code_actions(), vec![action("a", None)]);
    state.invalidate_code_actions();
    assert!(!state.receive_automatic_code_actions(&request, items()));
    assert!(state.automatic_code_actions().is_empty());
    assert!(matches!(
        state.code_action_menu_step(vec![], true),
        CodeActionMenuStep::Hide
    ));
}

#[test]
fn hover_contents_are_joined() {
    let contents = HoverContents::Array {
        values: vec!["one".to_string(), "two".to_string()],
    };
    assert_eq!(hover_text(&contents), "one\n\ntwo");
    let contents = HoverContents::Markup {
        value: "three".to_string(),
    };
    assert_eq!(hover_text(&contents), "three");
}

#[test]
fn keys_scroll_or_dismiss_the_hover() {
    assert_eq!(
        hover_key_step("up", false, false),
        HoverKeyStep::Scroll {
            command: HoverPopoverScroll::LineUp
        }
    );
    assert_eq!(hover_key_step("escape", false, false), HoverKeyStep::Dismiss);
    assert_eq!(hover_key_step("q", false, false), HoverKeyStep::Ignore);
}

#[test]
fn a_hover_is_asked_for_and_shown_at_the_cursor() {
    let mut state = InputState::new("let crab = 1;", InputMode::code_editor("rust"));
    state.set_editor_selections(vec![EditorSelection::caret(5)]);
    assert_eq!(state.show_hover_at_cursor(false, false), HoverStep::Refuse);
    let request = match state.show_hover_at_cursor(false, true) {
        HoverStep::Request { request } => request,
        other => panic!("{other:?}"),
    };
    assert_eq!(request.symbol_range, 4..8);
    let hover = Hover {
        contents: HoverContents::Scalar {
            value: "a crab".to_string(),
        },
        range: None,
    };
    state.receive_hover(request, Some(hover));
    assert_eq!(state.hover_popover_snapshot().unwrap().symbol_range, 4..8);
    assert_eq!(state.show_hover_at_cursor(false, true), HoverStep::Shown);
    assert!(state.hide_hover_popover());
    assert!(!state.hide_hover_popover());
}

#[test]
fn edits_of_a_server_are_applied_one_after_another() {
    let mut state = InputState::new("one two", InputMode::code_editor("rust"));
    let on_row = |start: u32, end: u32| {
        TextRange::new(Position::new(0, start), Position::new(0, end))
    };
    state.apply_lsp_edits(&vec![
        TextEdit {
            range: on_row(0, 3),
            new_text: "1".to_string(),
        },
        TextEdit {
            range: on_row(4, 7),
            new_text: "2".to_string(),
        },
    ]);
    assert_eq!(state.text.to_string(), "1 tw2");
}

#[test]
fn edits_of_a_server_move_the_snippet_and_are_recorded() {
    let mut state = InputState::new("x ", InputMode::code_editor("rust"));
    state.set_editor_selections(vec![EditorSelection::caret(2)]);
    let parsed = parse_snippet("${1:ab}");
    state.apply_buffer_edits(vec![(2..2, parsed.text.clone())]);
    state.start_snippet_sessions(&parsed, &[2]);
    let history = state.selection_history.len();
    let on_row = |start: u32, end: u32, text: &str| TextEdit {
        range: TextRange::new(Position::new(0, start), Position::new(0, end)),
        new_text: text.to_string(),
    };

    // In the active place the session goes on, and the selection is kept track of.
    state.apply_lsp_edits(&vec![on_row(2, 4, "longer")]);
    assert_eq!(state.text.to_string(), "x longer");
    let session = state.snippet_session.as_ref().unwrap();
    assert_eq!(session.active_range(), Some(2..8));
    assert_eq!(state.selection_history.len(), history + 1);
    let entry = state.selection_history.last().unwrap();
    assert_eq!(entry.version, 1);
    assert_eq!(entry.before, vec![EditorSelection::from_anchor_and_head(2, 4)]);
    assert_eq!(entry.after, state.selections());

    // Elsewhere it ends.
    state.apply_lsp_edits(&vec![on_row(0, 1, "yy")]);
    assert_eq!(state.text.to_string(), "yy longer");
    assert!(state.snippet_session.is_none());
    assert!(state.occurrence_session.is_none());
    assert_eq!(state.text_version, 3);

    // Without an edit nothing changes.
    state.apply_lsp_edits(&Vec::new());
    assert_eq!(state.text_version, 3);
}
