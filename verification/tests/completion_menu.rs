use editor_input::indent::update_tab_size;
use editor_input::lsp::completion_insertion::completion_insertion;
use editor_input::lsp::completion_menu::{AcceptStep, CompletionMenu, ResolveStep};
use editor_input::lsp::completions::{
    Acceptance, CompletionInsertMode, CompletionItem, CompletionTextEdit, InsertTextMode,
};
use editor_input::lsp::inlay_hints::{TextEdit, Tooltip};
use editor_input::lsp::position::TextRange;
use editor_input::lsp::signature_help::SignatureHelpTriggerKind;
use editor_input::snippet::ParsedSnippet;
use editor_input::snippet_variables::{SnippetVariableContext, SnippetVariables};
use editor_input::{Document, EditorSelection, InputMode, InputState, Position, TabSize};
use std::ops::Range;

fn editor(text: &str, cursor: usize) -> InputState {
    let mut state = InputState::new(text, InputMode::code_editor("rust"));
    state.set_editor_selections(vec![EditorSelection::caret(cursor)]);
    state
}

fn resolved_completion(label: &str, detail: &str, documentation: &str) -> CompletionItem {
    CompletionItem {
        detail: Some(detail.to_string()),
        documentation: Some(Tooltip::Plain {
            value: documentation.to_string(),
        }),
        ..CompletionItem::labelled(label)
    }
}

fn resolved_format_completion() -> CompletionItem {
    resolved_completion(
        "format",
        "fn format(value: &str)",
        "Formats a value without allocating.",
    )
}

fn insert(
    state: &mut InputState,
    item: &CompletionItem,
    range: &Range<usize>,
    commit_character: Option<&str>,
) -> Acceptance {
    complete(
        state,
        item,
        range,
        &SnippetVariableContext::default(),
        commit_character,
    )
}

fn complete(
    state: &mut InputState,
    item: &CompletionItem,
    range: &Range<usize>,
    context: &SnippetVariableContext,
    commit_character: Option<&str>,
) -> Acceptance {
    let requested = state.text.clone();
    let cursor = state.cursor();
    state.complete(
        &requested,
        cursor,
        item,
        range,
        CompletionInsertMode::Insert,
        context,
        None,
        commit_character,
    )
}

#[test]
fn focused_completion_resolves_once_and_refreshes_visible_details() {
    let mut state = editor("fo", 2);
    let mut menu = CompletionMenu::new();
    menu.begin_query(0, "fo".to_string());
    menu.show(2, vec![CompletionItem::labelled("format")], false);
    let request = menu.resolve_selected_item(Some(0)).expect("one request");
    assert!(menu.receive_resolved_item(request, resolved_format_completion()));

    let item = menu.items[menu.selected_index.unwrap()].clone();
    assert_eq!(item.detail.as_deref(), Some("fn format(value: &str)"));
    assert_eq!(
        item.documentation,
        Some(Tooltip::Plain {
            value: "Formats a value without allocating.".to_string()
        })
    );
    assert!(menu.resolved[menu.selected_index.unwrap()]);
    assert_eq!(menu.resolve_selected_item(Some(0)), None);

    let step = menu.accept_selected(state.cursor());
    assert_eq!(
        step,
        AcceptStep::Insert {
            index: 0,
            range: 0..2,
            resolve: ResolveStep::AlreadyResolved,
        }
    );
    assert_eq!(
        insert(&mut state, &item, &(0..2), None),
        Acceptance::Complete
    );
    assert_eq!(state.text.to_string(), "format");
}

#[test]
fn accepting_a_resolving_completion_reuses_the_in_flight_request() {
    let mut state = editor("fo", 2);
    let mut menu = CompletionMenu::new();
    menu.begin_query(0, "fo".to_string());
    menu.show(2, vec![CompletionItem::labelled("format")], false);
    assert!(menu.resolve_selected_item(Some(0)).is_some());
    assert_eq!(
        menu.accept_selected(state.cursor()),
        AcceptStep::Insert {
            index: 0,
            range: 0..2,
            resolve: ResolveStep::AwaitPending,
        }
    );
    assert_eq!(
        insert(&mut state, &resolved_format_completion(), &(0..2), None),
        Acceptance::Complete
    );
    assert_eq!(state.text.to_string(), "format");
}

#[test]
fn accepted_completion_is_one_undo_step_separate_from_typed_prefix() {
    let mut state = editor("f", 1);
    assert!(state.replace_all_selections("o"));
    assert_eq!(state.text.to_string(), "fo");
    let typed = state.text_version;
    let completion = CompletionItem {
        text_edit: Some(CompletionTextEdit::Edit {
            range: TextRange::new(Position::new(0, 0), Position::new(0, 2)),
            new_text: "format".to_string(),
        }),
        additional_text_edits: vec![TextEdit {
            range: TextRange::new(Position::new(0, 0), Position::new(0, 0)),
            new_text: "use fmt;\n".to_string(),
        }],
        ..CompletionItem::labelled("format")
    };
    assert_eq!(
        insert(&mut state, &completion, &(0..2), None),
        Acceptance::Complete
    );
    assert_eq!(state.text.to_string(), "use fmt;\nformat");
    assert_eq!(state.text_version, typed + 1);
    assert_eq!(state.selection_history.len(), 2);
}

#[test]
fn changing_completion_focus_rejects_the_stale_resolve_response() {
    let mut menu = CompletionMenu::new();
    menu.begin_query(0, String::new());
    menu.show(
        2,
        vec![
            CompletionItem::labelled("alpha"),
            CompletionItem::labelled("beta"),
        ],
        false,
    );
    let first = menu.resolve_selected_item(Some(0)).expect("first request");
    menu.selected_index = Some(1);
    let second = menu.resolve_selected_item(Some(1)).expect("second request");
    assert!(!menu.receive_resolved_item(
        first,
        resolved_completion("alpha", "stale alpha detail", "stale alpha documentation"),
    ));
    assert!(menu.receive_resolved_item(
        second,
        resolved_completion("beta", "current beta detail", "current beta documentation"),
    ));
    assert_eq!(menu.selected_index, Some(1));
    assert_eq!(menu.items[0].detail, None);
    assert_eq!(
        menu.items[1].detail.as_deref(),
        Some("current beta detail")
    );
    assert!(menu.resolved[1]);
}

#[test]
fn completion_commit_character_triggers_parameter_hints() {
    let mut state = editor("fo", 2);
    let completion = CompletionItem {
        insert_text: Some("format".to_string()),
        commit_characters: vec!["(".to_string()],
        ..CompletionItem::labelled("format")
    };
    let mut menu = CompletionMenu::new();
    menu.begin_query(0, "fo".to_string());
    menu.show(2, vec![completion.clone()], false);
    assert!(menu.accept_commit_character("(", state.cursor()).is_some());
    assert_eq!(
        insert(&mut state, &completion, &(0..2), Some("(")),
        Acceptance::Complete
    );
    assert_eq!(state.text.to_string(), "format(");

    let request = state
        .handle_signature_help_text_change(vec!["(".to_string()], Vec::new(), true)
        .expect("a request for parameter hints");
    assert_eq!(
        request.context.trigger_kind,
        SignatureHelpTriggerKind::TriggerCharacter
    );
    assert_eq!(request.context.trigger_character.as_deref(), Some("("));
}

#[test]
fn selecting_no_item_drops_the_running_resolution() {
    let mut menu = CompletionMenu::new();
    menu.begin_query(0, String::new());
    menu.show(2, vec![CompletionItem::labelled("alpha")], false);
    let request = menu.resolve_selected_item(Some(0)).expect("a request");
    menu.selected_index = None;
    assert_eq!(menu.resolve_selected_item(Some(0)), None);
    assert_eq!(menu.resolution.resolving_index, Some(0));
    assert_eq!(menu.resolve_selected_item(None), None);
    assert_eq!(menu.resolution.resolving_index, None);
    menu.selected_index = Some(0);
    assert!(!menu.receive_resolved_item(
        request,
        resolved_completion("alpha", "stale", "stale"),
    ));
    menu.selected_index = None;
    assert_eq!(
        menu.accept_selected(2),
        AcceptStep::Insert {
            index: 0,
            range: 0..2,
            resolve: ResolveStep::Request,
        }
    );
}

fn insertion(
    document: &Document,
    item: &CompletionItem,
    mode: CompletionInsertMode,
) -> ((Range<usize>, String), Option<ParsedSnippet>) {
    completion_insertion(
        document,
        &(0..2),
        item,
        mode,
        2,
        TabSize::default(),
        &SnippetVariables::new(),
    )
}

#[test]
fn an_accepted_item_inserts_its_text_or_what_its_snippet_reads() {
    let state = editor("fo(x)", 2);
    let document = state.document();
    let plain = CompletionItem {
        text_edit: Some(CompletionTextEdit::InsertAndReplace {
            insert: TextRange::new(Position::new(0, 0), Position::new(0, 2)),
            replace: TextRange::new(Position::new(0, 0), Position::new(0, 5)),
            new_text: "call(${1:a})$0".to_string(),
        }),
        ..CompletionItem::labelled("call")
    };
    let (edit, parsed) =
        insertion(&document, &plain, CompletionInsertMode::Insert);
    assert_eq!(edit, (0..2, "call(${1:a})$0".to_string()));
    assert!(parsed.is_none());

    let snippet = CompletionItem {
        is_snippet: true,
        ..plain
    };
    let (edit, parsed) =
        insertion(&document, &snippet, CompletionInsertMode::Replace);
    assert_eq!(edit, (0..5, "call(a)".to_string()));
    assert_eq!(parsed.unwrap().text, "call(a)");
}

#[test]
fn multiline_snippet_uses_adjusted_indentation_by_default() {
    let completion = CompletionItem {
        text_edit: Some(CompletionTextEdit::Edit {
            range: TextRange::new(Position::new(0, 4), Position::new(0, 6)),
            new_text: "if ${1:condition} {\n\t$0\n}".to_string(),
        }),
        is_snippet: true,
        ..CompletionItem::labelled("if")
    };
    let mut state = editor("    if", 6);
    assert!(update_tab_size(
        &mut state.mode,
        TabSize {
            tab_size: 4,
            hard_tabs: false,
        }
    ));
    let mut menu = CompletionMenu::new();
    menu.begin_query(4, "if".to_string());
    menu.show(6, vec![completion.clone()], false);
    let step = menu.accept_selected(state.cursor());
    assert_eq!(
        step,
        AcceptStep::Insert {
            index: 0,
            range: 4..6,
            resolve: ResolveStep::Request,
        }
    );
    assert_eq!(
        insert(&mut state, &completion, &(4..6), None),
        Acceptance::Complete
    );
    assert_eq!(
        state.text.to_string(),
        "    if condition {\n        \n    }"
    );
    // The condition is selected, and the last stop stands on the inner line.
    assert_eq!(
        state.selections(),
        vec![EditorSelection::from_anchor_and_head(7, 16)]
    );
    let session = state.snippet_session.as_ref().unwrap();
    assert_eq!(session.tabstops[1].ranges, vec![27..27]);
}

#[test]
fn accepted_snippet_resolves_document_and_dynamic_variables() {
    let completion = CompletionItem {
        text_edit: Some(CompletionTextEdit::Edit {
            range: TextRange::new(Position::new(0, 0), Position::new(0, 2)),
            new_text: "${TM_FILENAME_BASE/(.*)/${1:/upcase}/}:${TM_LINE_NUMBER}:${TM_SELECTED_TEXT:none}$0"
                .to_string(),
        }),
        is_snippet: true,
        ..CompletionItem::labelled("if")
    };
    let mut state = editor("if", 2);
    let context =
        SnippetVariableContext::new("/workspace/src/main.rs").workspace_root("/workspace");
    let mut menu = CompletionMenu::new();
    menu.begin_query(0, "if".to_string());
    menu.show(2, vec![completion.clone()], false);
    menu.accept_selected(state.cursor());
    assert_eq!(
        complete(&mut state, &completion, &(0..2), &context, None),
        Acceptance::Complete
    );
    assert_eq!(state.text.to_string(), "MAIN:1:none");
}

#[test]
fn plain_completions_are_indented_unless_they_stand_as_they_are() {
    let item = CompletionItem {
        insert_text: Some("a\n\tb\r\nc".to_string()),
        ..CompletionItem::labelled("a")
    };
    let mut state = editor("\r\n    a", 7);
    assert_eq!(insert(&mut state, &item, &(6..7), None), Acceptance::Complete);
    assert_eq!(state.text.to_string(), "\r\n    a\r\n      b\r\n    c");

    let item = CompletionItem {
        insert_text_mode: Some(InsertTextMode::AsIs),
        ..item
    };
    let mut state = editor("\r\n    a", 7);
    assert_eq!(insert(&mut state, &item, &(6..7), None), Acceptance::Complete);
    assert_eq!(state.text.to_string(), "\r\n    a\n\tb\r\nc");
}

#[test]
fn a_selection_fills_its_variables() {
    let item = CompletionItem {
        insert_text: Some("<$TM_SELECTED_TEXT|$SELECTION|$UNKNOWN|${TM_CURRENT_WORD:w}>".to_string()),
        is_snippet: true,
        ..CompletionItem::labelled("wrap")
    };
    let mut state = editor("one", 0);
    state.set_editor_selections(vec![EditorSelection::from_anchor_and_head(3, 0)]);
    assert_eq!(insert(&mut state, &item, &(0..3), None), Acceptance::Complete);
    assert_eq!(state.text.to_string(), "<one|one|UNKNOWN|one>");
}
