use editor_input::lsp::code_lens::Command;
use editor_input::lsp::inlay_hints::{
    merge_resolved_inlay_hint, normalized_inlay_hint_text_edits, InlayHint, InlayHintEffect,
    InlayHintIdentity, InlayHintKind, InlayHintLabel, InlayHintLabelPart, InlayHintStep,
    PendingInlayHintAction, TextEdit, Tooltip, MAX_INLAY_HINT_LABEL_CHARS,
};
use editor_input::lsp::position::TextRange;
use editor_input::{Document, InputMode, InputState, Lsp, Position};

fn document(text: &str) -> Document {
    Document::new(text.to_string())
}

fn on_row(start: u32, end: u32) -> TextRange {
    TextRange::new(Position::new(0, start), Position::new(0, end))
}

fn hint(character: u32, label: InlayHintLabel) -> InlayHint {
    InlayHint {
        position: Position::new(0, character),
        label,
        kind: Some(InlayHintKind::Type),
        text_edits: None,
        tooltip: None,
        padding_left: None,
        padding_right: None,
        data: None,
    }
}

fn whole(label: &str) -> InlayHintLabel {
    InlayHintLabel::Whole {
        label: label.to_string(),
    }
}

#[test]
fn inlay_hints_keep_buffer_offsets_and_bound_labels() {
    let text = document("let crab = 1;\n");
    let mut lsp = Lsp::default();
    lsp.inlay_hints = vec![InlayHint {
        padding_left: Some(true),
        padding_right: Some(false),
        ..hint(8, whole(&"x".repeat(100)))
    }];

    let hints = lsp.inlay_hints_for_line(&text, 0);
    assert_eq!(hints.len(), 1);
    assert_eq!(hints[0].buffer_offset, 8);
    assert!(hints[0].parts[0].label.ends_with('…'));
    assert!(hints[0].parts[0].label.chars().count() <= MAX_INLAY_HINT_LABEL_CHARS + 1);
}

#[test]
fn inlay_hint_label_parts_keep_semantic_identity_and_active_state() {
    let text = document("let crab = 1;\n");
    let mut lsp = Lsp::default();
    lsp.inlay_hints = vec![hint(
        8,
        InlayHintLabel::Parts {
            parts: vec![
                InlayHintLabelPart {
                    value: ": ".to_string(),
                    tooltip: None,
                    location: None,
                    command: None,
                },
                InlayHintLabelPart {
                    value: "i32".to_string(),
                    tooltip: None,
                    location: None,
                    command: Some(Command {
                        title: "Inspect".to_string(),
                        command: "inspect.type".to_string(),
                        arguments: None,
                    }),
                },
            ],
        },
    )];
    lsp.active_inlay_hint = Some(InlayHintIdentity {
        hint_index: 0,
        part_index: 1,
    });

    let hints = lsp.inlay_hints_for_line(&text, 0);
    assert_eq!(hints[0].parts.len(), 2);
    assert_eq!(hints[0].parts[1].part_index, 1);
    assert!(hints[0].parts[1].interactive);
    assert!(hints[0].parts[1].active);
    assert!(!hints[0].parts[0].active);
}

#[test]
fn resolved_inlay_hints_merge_lazy_fields_without_moving_the_anchor() {
    let original = InlayHint {
        padding_left: Some(true),
        padding_right: Some(false),
        data: Some("{\"id\":7}".to_string()),
        ..hint(4, whole(": ?"))
    };
    let resolved = InlayHint {
        position: original.position,
        label: whole(": i32"),
        kind: None,
        text_edits: Some(vec![TextEdit {
            range: on_row(4, 4),
            new_text: ": i32".to_string(),
        }]),
        tooltip: Some(Tooltip::Plain {
            value: "type hint".to_string(),
        }),
        padding_left: None,
        padding_right: None,
        data: None,
    };

    let merged = merge_resolved_inlay_hint(original.clone(), resolved).unwrap();
    assert!(matches!(merged.label, InlayHintLabel::Whole { ref label } if label == ": i32"));
    assert!(merged.text_edits.is_some());
    assert!(merged.tooltip.is_some());
    assert_eq!(merged.kind, original.kind);
    assert_eq!(merged.padding_left, original.padding_left);
    assert_eq!(merged.data, original.data);

    let moved = InlayHint {
        position: Position::new(0, 5),
        ..original.clone()
    };
    assert!(merge_resolved_inlay_hint(original, moved).is_none());
}

#[test]
fn inlay_hint_text_edits_are_bounded_non_overlapping_and_reverse_ordered() {
    let text = document("a💡bcdef\n");
    let edits = vec![
        TextEdit {
            range: on_row(1, 2),
            new_text: "lamp".to_string(),
        },
        TextEdit {
            range: on_row(4, 6),
            new_text: "XY".to_string(),
        },
    ];
    let normalized = normalized_inlay_hint_text_edits(&text, &edits).unwrap();
    assert_eq!(normalized[0].0, "a💡bc".len().."a💡bcde".len());
    assert_eq!(normalized[1].0, 1.."a💡".len());

    let overlapping = vec![
        TextEdit {
            range: on_row(1, 4),
            new_text: "x".to_string(),
        },
        TextEdit {
            range: on_row(3, 5),
            new_text: "y".to_string(),
        },
    ];
    assert!(normalized_inlay_hint_text_edits(&text, &overlapping).is_none());
}

fn editor_with_hint(hint: InlayHint) -> InputState {
    let source = "let crab = 1;\n";
    let mut state = InputState::new(source, InputMode::code_editor("rust"));
    let range = state.refresh_inlay_hints(true, 0..1).unwrap();
    assert!(state
        .lsp
        .receive_inlay_hints(&document(source), range, vec![hint]));
    state
}

#[test]
fn a_hint_is_resolved_once_and_then_performed() {
    let mut state = editor_with_hint(hint(8, whole(": ?")));
    let step = state.apply_inlay_hint_at(Some(true), 0);
    let request = match step {
        InlayHintStep::Resolve { request } => request,
        other => panic!("{other:?}"),
    };
    assert!(matches!(
        state.apply_inlay_hint_at(Some(true), 0),
        InlayHintStep::Wait
    ));
    let resolved = InlayHint {
        text_edits: Some(vec![TextEdit {
            range: on_row(8, 8),
            new_text: ": i32".to_string(),
        }]),
        ..hint(8, whole(": i32"))
    };
    let action = state.receive_resolved_inlay_hint(request, Some(resolved));
    assert_eq!(action, Some(PendingInlayHintAction::Apply { hint_index: 0 }));
    assert_eq!(
        state.perform_inlay_hint_action(action.unwrap(), true),
        InlayHintEffect::Apply { hint_index: 0 }
    );
    assert!(state.apply_inlay_hint_text_edits(0));
    assert_eq!(state.text.to_string(), "let crab: i32 = 1;\n");
}

#[test]
fn a_hint_that_is_not_there_is_refused() {
    let mut state = editor_with_hint(hint(8, whole(": i32")));
    assert!(matches!(
        state.apply_inlay_hint_at(Some(true), 7),
        InlayHintStep::Refuse
    ));
    assert!(!state.apply_inlay_hint_text_edits(7));
}
