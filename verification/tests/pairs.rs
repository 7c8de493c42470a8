use editor_input::pairs::{
    adjust_tracked_pairs_for_edit, bracket_match_near, bracket_navigation_target, overtype_target,
    pair_typing_plan, paired_backspace_range, EditorAutoClosingPair, EditorCharacterPair,
    EditorLanguageConfiguration, EditorTokenContext, TrackedAutoClosingPair,
};

fn pairs(texts: &[(&str, &str)]) -> Vec<EditorCharacterPair> {
    texts
        .iter()
        .map(|(open, close)| EditorCharacterPair::new(open, close))
        .collect()
}

fn rust_configuration() -> EditorLanguageConfiguration {
    EditorLanguageConfiguration::new()
        .with_brackets(pairs(&[("{", "}"), ("[", "]"), ("(", ")")]))
        .with_auto_closing_pairs(vec![
            EditorAutoClosingPair::new("{", "}"),
            EditorAutoClosingPair::new("[", "]"),
            EditorAutoClosingPair::new("(", ")"),
            EditorAutoClosingPair::new("\"", "\"").not_in(vec![EditorTokenContext::String]),
        ])
        .with_surrounding_pairs(pairs(&[("{", "}"), ("[", "]"), ("(", ")"), ("\"", "\"")]))
        .with_line_comment("//")
        .with_block_comment("/*", "*/")
        .with_string_delimiters(vec!["\"".to_string()])
}

#[test]
fn auto_close_and_surround_are_configuration_driven() {
    let config = rust_configuration();
    let plan = pair_typing_plan("call", 4..4, "(", &config).expect("auto close");
    assert_eq!(plan.replacement, "()");
    assert_eq!(plan.selection_after, 5..5);
    assert_eq!(plan.tracked_pair.unwrap().close, 5..6);

    let plan = pair_typing_plan("value", 0..5, "(", &config).expect("surround");
    assert_eq!(plan.replacement, "(value)");
    assert_eq!(plan.selection_after, 1..6);
    assert!(plan.tracked_pair.is_none());
}

#[test]
fn multi_character_openers_only_own_the_typed_fragment() {
    let config = EditorLanguageConfiguration::new()
        .with_auto_closing_pairs(vec![EditorAutoClosingPair::new("${", "}")]);
    let plan = pair_typing_plan("$", 1..1, "{", &config).expect("template close");
    assert_eq!(plan.replacement, "{}");
    let watched = plan.tracked_pair.expect("watched close");
    assert_eq!(watched.open, 1..2);
    assert_eq!(watched.open_text, "{");
    assert_eq!(paired_backspace_range("${}", 2, &[watched]), Some(1..3));
}

#[test]
fn quotes_respect_word_escape_context_and_following_character_rules() {
    let config = rust_configuration();
    assert!(pair_typing_plan("word", 4..4, "\"", &config).is_none());
    assert!(pair_typing_plan("\\", 1..1, "\"", &config).is_none());
    assert!(pair_typing_plan("\"text", 5..5, "\"", &config).is_none());
    assert!(pair_typing_plan("name", 0..0, "(", &config).is_none());
    assert!(pair_typing_plan(";", 0..0, "(", &config).is_some());
}

#[test]
fn tracked_pairs_shift_interior_closes_and_reject_manual_adjacency() {
    let mut watched = vec![TrackedAutoClosingPair {
        open: 0..1,
        close: 1..2,
        open_text: "(".into(),
        close_text: ")".into(),
    }];
    adjust_tracked_pairs_for_edit(&mut watched, &(1..1), "é".len());
    assert_eq!(watched[0].open, 0..1);
    assert_eq!(watched[0].close, 3..4);
    assert_eq!(paired_backspace_range("(é)", 3, &watched), None);

    adjust_tracked_pairs_for_edit(&mut watched, &(1..3), 0);
    assert_eq!(paired_backspace_range("()", 1, &watched), Some(0..2));
    assert_eq!(paired_backspace_range("()", 1, &[]), None);
}

#[test]
fn bracket_matching_ignores_strings_and_comments_and_navigates_nested_pairs() {
    let config = rust_configuration();
    let text = "fn main() { let value = \"}\"; /* ] */ call([1]); }";
    let open = text.find('{').unwrap();
    let close = text.rfind('}').unwrap();
    let matched = bracket_match_near(text, open + 1, &config).expect("outer match");
    assert_eq!(matched.open, open..open + 1);
    assert_eq!(matched.close, close..close + 1);

    let call_cursor = text.find("call").unwrap() + 4;
    assert_eq!(
        bracket_navigation_target(text, call_cursor, &config),
        text.find("]);").map(|offset| offset + 1)
    );
}

#[test]
fn invalid_and_oversized_tokens_are_removed_from_host_configuration() {
    let config = EditorLanguageConfiguration::new()
        .with_brackets(vec![
            EditorCharacterPair::new("", ")"),
            EditorCharacterPair::new(&"x".repeat(33), ")"),
            EditorCharacterPair::new("(", ")"),
        ])
        .normalized();
    assert_eq!(config.brackets(), &[EditorCharacterPair::new("(", ")")]);
}

#[test]
fn typing_a_tracked_close_moves_over_it() {
    let watched = vec![TrackedAutoClosingPair {
        open: 0..1,
        close: 1..2,
        open_text: "(".into(),
        close_text: ")".into(),
    }];
    assert_eq!(overtype_target("()", 1, ")", &watched), Some((0, 2)));
    assert_eq!(overtype_target("()", 1, "]", &watched), None);
    assert_eq!(overtype_target("()", 0, ")", &watched), None);
}

#[test]
fn a_lone_bracket_has_no_match() {
    let config = rust_configuration();
    assert!(bracket_match_near("(", 0, &config).is_none());
    assert!(bracket_match_near("plain", 2, &config).is_none());
    assert!(bracket_match_near("()", 1, &EditorLanguageConfiguration::new()).is_none());
}

#[test]
fn an_empty_bracket_does_not_matter_to_typing() {
    let config = EditorLanguageConfiguration::new()
        .with_brackets(pairs(&[("", "")]))
        .with_auto_closing_pairs(vec![EditorAutoClosingPair::new("(", ")")]);
    let plan = pair_typing_plan("call", 4..4, "(", &config).expect("auto close");
    assert_eq!(plan.replacement, "()");
}
