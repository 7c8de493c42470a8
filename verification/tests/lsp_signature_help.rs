use editor_input::lsp::inlay_hints::Tooltip;
use editor_input::lsp::signature_help::{
    active_parameter_range, normalize_signature_help, signature_documentation,
    simple_parameter_range, trigger_at, utf16_offset_to_byte, ParameterInformation, ParameterLabel,
    SignatureHelp, SignatureHelpTriggerKind, SignatureInformation, MAX_PARAMETERS, MAX_SIGNATURES,
    MAX_SIGNATURE_LABEL_CHARS, SIGNATURE_HELP_DELAY,
};
use editor_input::{Document, EditorSelection, InputMode, InputState};

fn plain(value: &str) -> Tooltip {
    Tooltip::Plain {
        value: value.to_string(),
    }
}

fn simple(label: &str) -> ParameterLabel {
    ParameterLabel::Simple {
        label: label.to_string(),
    }
}

fn signature(label: &str) -> SignatureInformation {
    SignatureInformation {
        label: label.to_string(),
        documentation: None,
        parameters: None,
        active_parameter: None,
    }
}

#[test]
fn trigger_matching_prefers_the_longest_advertised_suffix() {
    let text = Document::new("call::".to_string());
    assert_eq!(
        trigger_at(&text, text.len(), &vec![":".into(), "::".into()]),
        Some("::".into())
    );
    assert_eq!(trigger_at(&text, text.len(), &vec!["(".into()]), None);
}

#[test]
fn normalization_bounds_signatures_parameters_and_active_indices() {
    let signature = SignatureInformation {
        label: "call(value)".into(),
        documentation: None,
        parameters: Some(
            (0..300)
                .map(|_| ParameterInformation {
                    label: simple("value"),
                    documentation: None,
                })
                .collect(),
        ),
        active_parameter: None,
    };
    let help = normalize_signature_help(SignatureHelp {
        signatures: vec![signature; 120],
        active_signature: Some(900),
        active_parameter: Some(900),
    })
    .unwrap();
    assert_eq!(help.signatures.len(), MAX_SIGNATURES);
    assert_eq!(
        help.signatures[0].parameters.as_ref().unwrap().len(),
        MAX_PARAMETERS
    );
    assert_eq!(help.active_signature, Some(99));
    assert_eq!(help.active_parameter, Some(255));
}

#[test]
fn normalization_rejects_empty_or_unbounded_signature_sets() {
    assert!(normalize_signature_help(SignatureHelp {
        signatures: Vec::new(),
        active_signature: None,
        active_parameter: None,
    })
    .is_none());
    assert!(normalize_signature_help(SignatureHelp {
        signatures: vec![signature(&"x".repeat(MAX_SIGNATURE_LABEL_CHARS + 1))],
        active_signature: None,
        active_parameter: None,
    })
    .is_none());
}

#[test]
fn parameter_offsets_are_utf16_safe_and_reject_split_surrogates() {
    let signature = SignatureInformation {
        parameters: Some(vec![ParameterInformation {
            label: ParameterLabel::Offsets { start: 7, end: 12 },
            documentation: None,
        }]),
        ..signature("call(😀value)")
    };
    assert_eq!(
        active_parameter_range(&signature, 0),
        Some("call(😀".len().."call(😀value".len())
    );
    let malformed = SignatureInformation {
        parameters: Some(vec![ParameterInformation {
            label: ParameterLabel::Offsets { start: 6, end: 12 },
            documentation: None,
        }]),
        ..signature
    };
    assert_eq!(active_parameter_range(&malformed, 0), None);
}

#[test]
fn simple_parameter_labels_require_identifier_boundaries() {
    assert_eq!(
        simple_parameter_range("call(value, value2)", "value"),
        Some(5..10)
    );
    assert_eq!(simple_parameter_range("call(myvalue)", "value"), None);
}

#[test]
fn active_parameter_documentation_precedes_signature_documentation() {
    let signature = SignatureInformation {
        documentation: Some(plain("Signature docs")),
        parameters: Some(vec![ParameterInformation {
            label: simple("value"),
            documentation: Some(plain("Parameter docs")),
        }]),
        ..signature("call(value)")
    };
    assert_eq!(
        signature_documentation(&signature, 0).as_deref(),
        Some("Parameter docs\n\nSignature docs")
    );
}

#[test]
fn utf16_columns_are_counted_in_units() {
    assert_eq!(utf16_offset_to_byte("a😀b", 1), Some(1));
    assert_eq!(utf16_offset_to_byte("a😀b", 2), None);
    assert_eq!(utf16_offset_to_byte("a😀b", 3), Some(5));
    assert_eq!(utf16_offset_to_byte("a😀b", 4), Some(6));
    assert_eq!(utf16_offset_to_byte("a😀b", 5), None);
}

#[test]
fn a_typed_trigger_asks_for_help_and_the_signatures_can_be_walked() {
    let mut state = InputState::new("call(", InputMode::code_editor("rust"));
    state.set_editor_selections(vec![EditorSelection::caret(5)]);
    let request = state
        .handle_signature_help_text_change(vec!["(".into()], vec![",".into()], true)
        .unwrap();
    assert_eq!(
        request.context.trigger_kind,
        SignatureHelpTriggerKind::TriggerCharacter
    );
    assert_eq!(request.context.trigger_character.as_deref(), Some("("));
    let help = SignatureHelp {
        signatures: vec![signature("call(a)"), signature("call(b)")],
        active_signature: None,
        active_parameter: None,
    };
    assert!(state.receive_signature_help(&request, Some(help)));
    assert!(state.signature_help_has_multiple());
    assert!(state.next_parameter_hint());
    assert_eq!(state.signature_help().unwrap().active_signature, Some(1));
    assert!(state.previous_parameter_hint());
    assert_eq!(state.signature_help().unwrap().active_signature, Some(0));
    assert!(state.close_signature_help());
    assert!(!state.receive_signature_help(&request, None));
}

#[test]
fn a_request_carries_the_help_that_is_shown() {
    let mut state = InputState::new("call(", InputMode::code_editor("rust"));
    state.set_editor_selections(vec![EditorSelection::caret(5)]);
    let request = state.trigger_parameter_hints(true).unwrap();
    assert_eq!(request.context.active_signature_help, None);
    assert!(!request.context.is_retrigger);
    assert_eq!(request.delay, 0);
    let help = SignatureHelp {
        signatures: vec![SignatureInformation {
            documentation: Some(Tooltip::Markup {
                markdown: true,
                value: "*calls*".to_string(),
            }),
            parameters: Some(vec![ParameterInformation {
                label: ParameterLabel::Offsets { start: 5, end: 6 },
                documentation: None,
            }]),
            ..signature("call(a)")
        }],
        active_signature: None,
        active_parameter: None,
    };
    assert!(state.receive_signature_help(&request, Some(help)));
    let shown = state.signature_help().cloned();
    assert!(shown.is_some());

    let request = state.retrigger_signature_help_after_cursor_move(true).unwrap();
    assert_eq!(request.context.active_signature_help, shown);
    assert_eq!(request.delay, SIGNATURE_HELP_DELAY);
    assert!(state.wants_signature_help(&request));
    let request = state
        .handle_signature_help_text_change(vec!["(".into()], Vec::new(), false)
        .unwrap();
    assert_eq!(request.context.active_signature_help, shown);
    assert!(request.context.is_retrigger);
    state.close_signature_help();
    assert!(!state.wants_signature_help(&request));
}
