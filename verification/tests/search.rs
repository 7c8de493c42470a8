use editor_input::search::{
    bounded_single_line_search_seed, next_scroll_direction, preserve_replacement_case,
    prev_scroll_direction, MoveDirection, SearchMatcher, MAX_REGEX_QUERY_BYTES,
    MAX_SEARCH_SELECTION_SEED_BYTES,
};
use ropey::Rope;

#[test]
fn test_search() {
    let mut matcher = SearchMatcher::new();
    matcher.update(&Rope::from("Hello 世界 this is a Is test string."));
    matcher.update_query("Is", true);

    assert_eq!(matcher.len(), 3);
    let mut matches = matcher.clone();
    assert_eq!(matches.current_match_ix, 0);
    assert_eq!(matches.next(), Some(18..20));
    assert_eq!(matches.next(), Some(23..25));
    assert_eq!(matches.current_match_ix, 2);
    assert_eq!(matches.next(), Some(15..17));
    assert_eq!(matches.current_match_ix, 0);
    assert_eq!(matches.next_back(), Some(23..25));
    assert_eq!(matches.current_match_ix, 2);
    assert_eq!(matches.next_back(), Some(18..20));
    assert_eq!(matches.current_match_ix, 1);
    assert_eq!(matches.next_back(), Some(15..17));
    assert_eq!(matches.current_match_ix, 0);
    assert_eq!(matches.next_back(), Some(23..25));

    matcher.update_query("IS", false);
    assert_eq!(matcher.len(), 0);
    assert_eq!(matcher.next(), None);
    assert_eq!(matcher.next_back(), None);
}

#[test]
fn test_search_label() {
    let mut matcher = SearchMatcher::new();
    matcher.update(&Rope::from("Hello 世界 this is a Is test string."));
    matcher.update_query("Is", true);
    assert_eq!(matcher.label(), "1/3");
    matcher.next();
    assert_eq!(matcher.label(), "2/3");
    matcher.next();
    assert_eq!(matcher.label(), "3/3");
    matcher.next();
    assert_eq!(matcher.label(), "1/3");

    matcher.update_query("IS", false);
    assert_eq!(matcher.label(), "0/0");
}

#[test]
fn search_seed_matches_single_line_editor_selection_behavior_and_is_bounded() {
    assert_eq!(
        bounded_single_line_search_seed("selected value".to_string()),
        "selected value"
    );
    assert!(bounded_single_line_search_seed("first\nsecond".to_string()).is_empty());
    assert!(bounded_single_line_search_seed("first\r\nsecond".to_string()).is_empty());
    assert!(
        bounded_single_line_search_seed("x".repeat(MAX_SEARCH_SELECTION_SEED_BYTES + 1)).is_empty()
    );
}

#[test]
fn whole_word_search_rejects_identifier_substrings_and_handles_unicode() {
    let mut matcher = SearchMatcher::new();
    matcher.update(&Rope::from("foo foo_bar foo-bar $foo naïve naïveté"));
    matcher.update_query_with_options("foo", false, true, false);

    let text = matcher.text.to_string();
    let matches = matcher
        .matched_ranges
        .iter()
        .map(|range| text[range.clone()].to_string())
        .collect::<Vec<_>>();
    assert_eq!(matches, vec!["foo", "foo", "foo"]);

    matcher.update_query_with_options("naïve", false, true, false);
    assert_eq!(matcher.len(), 1);
    assert_eq!(&text[matcher.matched_ranges[0].clone()], "naïve");
}

#[test]
fn regex_search_reports_invalid_patterns_and_expands_replacement_captures() {
    let mut matcher = SearchMatcher::new();
    matcher.update(&Rope::from("abc-123 def-456"));
    matcher.update_query_with_options(r"([a-z]+)-(\d+)", false, false, true);

    assert!(!matcher.has_query_error());
    assert_eq!(matcher.len(), 2);
    assert_eq!(
        matcher.replacement_texts(&matcher.matched_ranges, "$2:$1", true),
        vec!["123:abc", "456:def"]
    );
    assert_eq!(
        matcher.replacement_texts(&matcher.matched_ranges[..1], r"$&\n$2$$", false),
        vec!["abc-123\n123$"]
    );

    matcher.update_query_with_options("(", false, false, true);
    assert!(matcher.has_query_error());
    assert_eq!(matcher.len(), 0);
    assert_eq!(matcher.label(), "Invalid regex");

    matcher.update_query_with_options(&"x".repeat(MAX_REGEX_QUERY_BYTES + 1), false, false, true);
    assert!(matcher.has_query_error());
    assert_eq!(matcher.len(), 0);
}

#[test]
fn preserve_case_matches_common_editor_replacement_patterns() {
    assert_eq!(preserve_replacement_case("FOO", "bar"), "BAR");
    assert_eq!(preserve_replacement_case("foo", "BAR"), "bar");
    assert_eq!(preserve_replacement_case("Foo", "bar"), "Bar");
    assert_eq!(preserve_replacement_case("fOO", "Bar"), "bar");
    assert_eq!(
        preserve_replacement_case("HTTP_SERVER", "web_client"),
        "WEB_CLIENT"
    );
    assert_eq!(
        preserve_replacement_case("http-Server", "web-Client"),
        "web-Client"
    );
    assert_eq!(preserve_replacement_case("$foo", "Bar"), "bar");
}

#[test]
fn preserve_case_does_not_override_explicit_regex_capture_replacements() {
    let mut matcher = SearchMatcher::new();
    matcher.update(&Rope::from("FOO-123"));
    matcher.update_query_with_options(r"([A-Z]+)-(\d+)", false, false, true);

    assert_eq!(
        matcher.replacement_texts(&matcher.matched_ranges, "$2:$1", true),
        vec!["123:FOO"]
    );
    assert_eq!(
        matcher.replacement_texts(&matcher.matched_ranges, "value", true),
        vec!["VALUE"]
    );
}

#[test]
fn test_select_range_start() {
    let mut matcher = SearchMatcher::new();
    matcher.matched_ranges = vec![5..10, 15..20, 25..30];
    matcher.update_cursor_by_offset(0);
    assert_eq!(matcher.current_match_ix, 0);

    matcher.update_cursor_by_offset(5);
    assert_eq!(matcher.current_match_ix, 0);

    matcher.update_cursor_by_offset(12);
    assert_eq!(matcher.current_match_ix, 1);

    matcher.update_cursor_by_offset(16);
    assert_eq!(matcher.current_match_ix, 1);

    matcher.update_cursor_by_offset(30);
    assert_eq!(matcher.current_match_ix, 2);

    matcher.update_cursor_by_offset(31);
    assert_eq!(matcher.current_match_ix, 2);
}

#[test]
fn test_next_scroll_direction_returns_down_without_wrap() {
    assert!(matches!(
        next_scroll_direction(0, 1),
        Some(MoveDirection::Down)
    ));
}

#[test]
fn test_next_scroll_direction_returns_none_on_wrap() {
    assert!(next_scroll_direction(2, 0).is_none());
}

#[test]
fn test_next_scroll_direction_returns_none_for_single_match() {
    assert!(next_scroll_direction(0, 0).is_none());
}

#[test]
fn test_next_ix_wraps_to_start() {
    let mut matcher = SearchMatcher::new();
    matcher.matched_ranges = vec![5..10, 15..20, 25..30];
    matcher.current_match_ix = 2;

    assert_eq!(matcher.next_ix(), Some(0));
}

#[test]
fn test_prev_scroll_direction_returns_up_without_wrap() {
    assert!(matches!(
        prev_scroll_direction(2, 1),
        Some(MoveDirection::Up)
    ));
}

#[test]
fn test_prev_scroll_direction_returns_none_on_wrap() {
    assert!(prev_scroll_direction(0, 2).is_none());
}

#[test]
fn test_prev_scroll_direction_returns_none_for_single_match() {
    assert!(prev_scroll_direction(0, 0).is_none());
}

#[test]
fn test_update_matches_clamps_current_match_index_while_replacing() {
    let mut matcher = SearchMatcher::new();
    matcher.update(&Rope::from("foo foo foo"));
    matcher.update_query("foo", true);
    matcher.current_match_ix = 2;
    matcher.replacing = true;

    matcher.update(&Rope::from("foo xoo foo"));

    assert_eq!(matcher.len(), 2);
    assert_eq!(matcher.current_match_ix, 1);
    assert_eq!(matcher.label(), "2/2");
    assert!(!matcher.replacing);
}

#[test]
fn replacing_all_matches_rewrites_the_text_once() {
    let mut matcher = SearchMatcher::new();
    matcher.update(&Rope::from("Foo foo bar FOO"));
    matcher.update_query("foo", true);
    assert_eq!(
        matcher.replace_all("baz", true),
        Some("Baz baz bar BAZ".to_string())
    );
}

#[test]
fn replacing_the_next_match_plans_one_edit() {
    let mut matcher = SearchMatcher::new();
    matcher.update(&Rope::from("foo bar foo"));
    matcher.update_query("foo", true);
    let planned = matcher.replace_next("x", false).unwrap();
    assert_eq!(planned.range, 0..3);
    assert_eq!(planned.text, "x");
    assert!(matcher.replacing);
}

#[test]
fn going_back_undoes_going_on() {
    let mut matcher = SearchMatcher::new();
    matcher.update(&Rope::from("ab ab ab"));
    matcher.update_query("ab", true);
    for _ in 0..4 {
        let before = matcher.current_match_ix;
        matcher.next();
        matcher.next_back();
        assert_eq!(matcher.current_match_ix, before);
        matcher.next();
    }
}
