use editor_input::lsp::completions::{Acceptance, CompletionItem};
use editor_input::lsp::inlay_hints::TextEdit;
use editor_input::lsp::inline_completion::{wants_inline_completion, InlineCompletion};
use editor_input::lsp::completion_menu::CompletionMenu;
use editor_input::lsp::position::TextRange;
use editor_input::multi_cursor::normalize_selections;
use editor_input::pairs::{bracket_match_near, EditorCharacterPair};
use editor_input::snippet::parse_snippet;
use editor_input::{
    Document, EditorLanguageConfiguration, EditorSelection, InputMode, InputState, Position,
    Selection,
};
use ropey::Rope;

fn editor(text: &str) -> InputState {
    InputState::new(text, InputMode::code_editor("rust"))
}

fn select(state: &mut InputState, anchor: usize, head: usize) {
    state.set_editor_selections(vec![EditorSelection::from_anchor_and_head(anchor, head)]);
}

#[test]
fn reversing_lines_twice_gives_the_text_back() {
    let source = "one\r\ntwo\r\nthree";
    let mut state = editor(source);
    select(&mut state, 0, source.len());
    assert!(state.reverse_lines());
    assert_eq!(state.text.to_string(), "three\r\ntwo\r\none");
    select(&mut state, 0, source.len());
    assert!(state.reverse_lines());
    assert_eq!(state.text.to_string(), source);
}

#[test]
fn moving_lines_down_and_up_gives_the_text_back() {
    let source = "one\ntwo\nthree\n";
    let mut state = editor(source);
    select(&mut state, 1, 1);
    assert!(state.move_lines_down());
    assert_eq!(state.text.to_string(), "two\none\nthree\n");
    assert!(state.move_lines_up());
    assert_eq!(state.text.to_string(), source);
}

#[test]
fn deleted_and_joined_lines_leave_the_others() {
    let mut state = editor("one\ntwo\nthree\nfour");
    select(&mut state, 5, 9);
    assert!(state.delete_lines());
    assert_eq!(state.text.to_string(), "one\nfour");

    let mut state = editor("zero\none  \n   two\nthree");
    select(&mut state, 6, 6);
    assert!(state.join_lines());
    assert_eq!(state.text.to_string(), "zero\none two\nthree");
}

#[test]
fn deleting_duplicates_again_changes_nothing() {
    let source = "b\na\nb\nc\na";
    let mut state = editor(source);
    select(&mut state, 0, source.len());
    assert!(state.delete_duplicate_lines());
    assert_eq!(state.text.to_string(), "b\na\nc");
    select(&mut state, 0, "b\na\nc".len());
    assert!(!state.delete_duplicate_lines());
    assert_eq!(state.text.to_string(), "b\na\nc");
}

#[test]
fn line_comments_toggled_twice_give_the_text_back() {
    let source = "  first\n\n    second";
    let mut state = editor(source);
    state.language_configuration = EditorLanguageConfiguration::new().with_line_comment("//");
    select(&mut state, 0, source.len());
    assert!(state.toggle_line_comment());
    assert_eq!(state.text.to_string(), "  // first\n\n  //   second");
    let whole = state.text.to_string().len();
    select(&mut state, 0, whole);
    assert!(state.toggle_line_comment());
    assert_eq!(state.text.to_string(), source);
}

#[test]
fn block_comments_toggled_twice_give_text_and_selection_back() {
    let source = "first\nsecond é\nthird";
    let mut state = editor(source);
    state.language_configuration =
        EditorLanguageConfiguration::new().with_block_comment("/*", "*/");
    let chosen = EditorSelection {
        range: Selection::new(2, 12),
        reversed: true,
    };
    state.set_editor_selections(vec![chosen]);
    assert!(state.toggle_block_comment());
    assert_eq!(state.text.to_string(), "fi/* rst\nsecond */ é\nthird");
    assert!(state.toggle_block_comment());
    assert_eq!(state.text.to_string(), source);
    assert_eq!(state.selections(), vec![chosen]);
}

#[test]
fn a_block_comment_before_its_own_end_is_not_taken_back() {
    let mut state = editor("*");
    state.language_configuration =
        EditorLanguageConfiguration::new().with_block_comment("/*", "*/");
    select(&mut state, 0, 0);
    assert!(state.toggle_block_comment());
    assert_eq!(state.text.to_string(), "/*  */*");
    assert!(state.toggle_block_comment());
    assert_ne!(state.text.to_string(), "*");
}

#[test]
fn indented_lines_are_outdented_again() {
    let source = "one\n  two\nthree";
    let mut state = editor(source);
    select(&mut state, 0, source.len());
    assert!(state.indent(true));
    let indented = state.text.to_string();
    assert_ne!(indented, source);
    select(&mut state, 0, indented.len());
    assert!(state.outdent(true));
    assert_eq!(state.text.to_string(), source);
}

#[test]
fn normal_selections_are_normal() {
    let document = Document::new("one two three".to_string());
    let fallback = EditorSelection::caret(0);
    let given = vec![
        EditorSelection::from_anchor_and_head(7, 4),
        EditorSelection::caret(1),
        EditorSelection::from_anchor_and_head(5, 9),
        EditorSelection::caret(1),
    ];
    let once = normalize_selections(&document, &given, fallback);
    assert_eq!(once.len(), 2);
    assert_eq!((once[0].range.start, once[0].range.end), (4, 9));
    assert_eq!(once[1], EditorSelection::caret(1));
    assert_eq!(normalize_selections(&document, &once, fallback), once);
}

#[test]
fn brackets_match_from_both_sides() {
    let brackets = EditorLanguageConfiguration::new().with_brackets(vec![
        EditorCharacterPair::new("(", ")"),
        EditorCharacterPair::new("[", "]"),
    ]);
    let text = "a(b[c]d)e";
    let outer = bracket_match_near(text, 1, &brackets).expect("outer bracket");
    assert_eq!(bracket_match_near(text, 8, &brackets), Some(outer));
    let inner = bracket_match_near(text, 3, &brackets).expect("inner bracket");
    assert_eq!(bracket_match_near(text, 6, &brackets), Some(inner));
}

#[test]
fn typing_in_a_tab_stop_fills_its_mirrors() {
    let parsed = parse_snippet("${1:name} = $1;$0");
    let mut state = editor(&format!("{} // tail", parsed.text));
    assert_eq!(state.text.to_string(), "name = name; // tail");
    state.start_snippet_sessions(&parsed, &[0]);
    assert_eq!(
        state.selections(),
        vec![EditorSelection::from_anchor_and_head(0, 4)]
    );
    assert!(state.replace_all_selections("index"));
    assert_eq!(state.text.to_string(), "index = index; // tail");
    assert_eq!(state.selections(), vec![EditorSelection::caret(5)]);
    assert!(state.has_active_snippet_session());
    assert_eq!(state.selection_history.len(), 1);
}

#[test]
fn typing_at_two_insertions_fills_the_mirrors_of_each() {
    let parsed = parse_snippet("${1:a}-$1$0");
    let mut state = editor("a-a\na-a");
    state.start_snippet_sessions(&parsed, &[0, 4]);
    assert!(state.replace_all_selections("xyz"));
    assert_eq!(state.text.to_string(), "xyz-xyz\nxyz-xyz");
    assert_eq!(
        state.selections(),
        vec![EditorSelection::caret(3), EditorSelection::caret(11)]
    );
    assert!(state.move_to_next_snippet_tabstop());
    assert!(!state.has_active_snippet_session());
}

#[test]
fn a_snippet_choice_fills_the_tab_stop_and_its_mirror() {
    let parsed = parse_snippet("${1|one,two|} $1 $2$0");
    let mut state = editor(&parsed.text);
    state.start_snippet_sessions(&parsed, &[0]);
    let choices = vec!["one".to_string(), "two".to_string()];
    assert!(!state.accept_active_snippet_choice(&choices, "three"));
    assert!(state.accept_active_snippet_choice(&choices, "two"));
    assert_eq!(state.text.to_string(), "two two ");
    assert_eq!(state.active_snippet_tabstop_index(), Some(2));
    assert_eq!(state.selections(), vec![EditorSelection::caret(8)]);
}

#[test]
fn choices_are_offered_while_their_tab_stop_is_active() {
    let parsed = parse_snippet("${1|one,two|}$0");
    let mut state = editor(&parsed.text);
    let mut menu = CompletionMenu::new();
    let choices = vec!["one".to_string(), "two".to_string()];
    assert!(!menu.refresh_active_snippet_choice_menu(&mut state, Some(&choices)));
    state.start_snippet_sessions(&parsed, &[0]);
    assert!(menu.refresh_active_snippet_choice_menu(&mut state, Some(&choices)));
    assert!(menu.is_snippet_choice());
    assert_eq!(menu.items.len(), 2);
    assert_eq!(menu.items[menu.selected_index.unwrap()].label, "one");
    assert!(!menu.refresh_active_snippet_choice_menu(&mut state, None));
    assert!(!menu.is_open());
}

#[test]
fn an_accepted_snippet_completion_selects_its_first_tab_stop() {
    let mut state = editor("use a;\ncal");
    select(&mut state, 10, 10);
    let requested = state.text.clone();
    let mut item = CompletionItem::labelled("call");
    item.is_snippet = true;
    item.additional_text_edits = vec![TextEdit {
        range: TextRange::new(Position::new(0, 5), Position::new(0, 5)),
        new_text: "bc".to_string(),
    }];
    let parsed = parse_snippet("call(${1:x})$0");
    let outcome = state.insert_completion(
        &requested,
        10,
        &item,
        (7..10, parsed.text.clone()),
        Some(&parsed),
        None,
    );
    assert_eq!(outcome, Acceptance::Complete);
    assert_eq!(state.text.to_string(), "use abc;\ncall(x)");
    assert_eq!(
        state.selections(),
        vec![EditorSelection::from_anchor_and_head(14, 15)]
    );

    let again = state.insert_completion(&requested, 10, &item, (7..10, String::new()), None, None);
    assert_eq!(again, Acceptance::Moved);
    assert_eq!(state.text.to_string(), "use abc;\ncall(x)");
}

#[test]
fn an_accepted_completion_is_followed_by_its_commit_character() {
    let mut state = editor("va");
    select(&mut state, 2, 2);
    let requested = state.text.clone();
    let item = CompletionItem::labelled("value");
    let outcome = state.insert_completion(
        &requested,
        2,
        &item,
        (0..2, "value".to_string()),
        None,
        Some("."),
    );
    assert_eq!(outcome, Acceptance::Complete);
    assert_eq!(state.text.to_string(), "value.");
    assert_eq!(state.cursor(), 6);
}

#[test]
fn an_inline_completion_is_dropped_when_the_cursor_moves() {
    let mut state = editor("let x");
    select(&mut state, 5, 5);
    let mut inline = InlineCompletion::new();
    assert_eq!(inline.schedule_inline_completion(&state, false), None);
    assert_eq!(inline.schedule_inline_completion(&state, true), Some(5));
    assert!(wants_inline_completion(5, 5, false));
    assert!(!wants_inline_completion(5, 5, true));
    assert!(!inline.receive_inline_completion(5, 4, false, vec![" = 1".to_string()]));
    assert!(!inline.accept_inline_completion(&mut state));
    assert!(inline.receive_inline_completion(5, 5, false, vec![" = 1".to_string()]));
    assert!(inline.has_inline_completion());
    assert!(inline.accept_inline_completion(&mut state));
    assert!(!inline.has_inline_completion());
    assert_eq!(state.text, Rope::from("let x = 1"));
    assert_eq!(state.cursor(), 9);
}

#[test]
fn deleting_several_blocks_leaves_the_rows_between() {
    let mut state = editor("a\nb\nc\nd\ne");
    state.set_editor_selections(vec![
        EditorSelection::caret(2),
        EditorSelection::from_anchor_and_head(6, 9),
    ]);
    assert!(state.delete_lines());
    assert_eq!(state.text.to_string(), "a\nc");

    let mut all = editor("a\nb");
    select(&mut all, 0, 3);
    assert!(all.delete_lines());
    assert_eq!(all.text.to_string(), "");
}

#[test]
fn reversing_a_document_at_two_carets_gives_every_byte_back() {
    for source in ["\r\none\r\ntwo\r\n", "one\n\ntwo", "one", "", "\n"] {
        let mut state = editor(source);
        select(&mut state, 0, 0);
        state.reverse_lines();
        let end = state.text.to_string().len();
        select(&mut state, end, end);
        state.reverse_lines();
        assert_eq!(state.text.to_string(), source);
    }
}

#[test]
fn an_empty_first_line_is_lost_behind_an_unfinished_last_one() {
    let mut state = editor("\na\nb");
    select(&mut state, 0, 0);
    assert!(state.reverse_lines());
    assert_eq!(state.text.to_string(), "b\na\n");
    select(&mut state, 0, 0);
    assert!(state.reverse_lines());
    assert_eq!(state.text.to_string(), "a\nb\n");
}

#[test]
fn moving_the_line_of_a_caret_back_gives_text_and_caret_back() {
    let source = "α\r\nsecond\r\nthird";
    let caret = EditorSelection::caret(7);
    let mut state = editor(source);
    state.set_editor_selections(vec![caret]);
    assert!(state.move_lines_up());
    assert_eq!(state.text.to_string(), "second\r\nα\r\nthird");
    assert!(state.move_lines_down());
    assert_eq!(state.text.to_string(), source);
    assert_eq!(state.selections(), vec![caret]);
    assert!(state.move_lines_down());
    assert_eq!(state.text.to_string(), "α\r\nthird\r\nsecond");
    assert!(state.move_lines_up());
    assert_eq!(state.text.to_string(), source);
    assert_eq!(state.selections(), vec![caret]);
}
