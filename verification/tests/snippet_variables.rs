use editor_input::snippet_variables::{
    ClockReading, PathParts, SnippetVariableContext, SnippetVariables,
};
use ropey::Rope;

#[test]
fn completion_variables_cover_document_workspace_selection_and_cursor() {
    let context = SnippetVariableContext::new("/workspace/app/src/main.rs")
        .workspace_root("/workspace/app")
        .line_comment("//")
        .block_comment("/*", "*/");
    let text = Rope::from_str("fn alpha() {\n    value_here\n}\n");
    let cursor = "fn alpha() {\n    value".len();
    let variables =
        SnippetVariables::for_completion(&context, &text, cursor, "selected", Some("copied"));

    assert_eq!(variables.resolve("TM_FILENAME"), Some("main.rs"));
    assert_eq!(variables.resolve("TM_FILENAME_BASE"), Some("main"));
    assert_eq!(variables.resolve("TM_DIRECTORY_BASE"), Some("src"));
    assert_eq!(variables.resolve("RELATIVE_FILEPATH"), Some("src/main.rs"));
    assert_eq!(variables.resolve("WORKSPACE_NAME"), Some("app"));
    assert_eq!(variables.resolve("TM_CURRENT_LINE"), Some("    value_here"));
    assert_eq!(variables.resolve("TM_CURRENT_WORD"), Some("value_here"));
    assert_eq!(variables.resolve("TM_LINE_INDEX"), Some("1"));
    assert_eq!(variables.resolve("TM_LINE_NUMBER"), Some("2"));
    assert_eq!(variables.resolve("TM_SELECTED_TEXT"), Some("selected"));
    assert_eq!(variables.resolve("CLIPBOARD"), Some("copied"));
    assert_eq!(variables.resolve("LINE_COMMENT"), Some("//"));
    assert_eq!(variables.resolve("BLOCK_COMMENT_END"), Some("*/"));
}

#[test]
fn empty_optional_values_remain_unresolved_for_snippet_defaults() {
    let variables = SnippetVariables::for_completion(
        &SnippetVariableContext::default(),
        &Rope::from_str(""),
        0,
        "",
        None,
    );
    assert_eq!(variables.resolve("TM_SELECTED_TEXT"), None);
    assert_eq!(variables.resolve("CLIPBOARD"), None);
    assert_eq!(variables.resolve("TM_CURRENT_WORD"), None);
    assert_eq!(variables.resolve("TM_LINE_NUMBER"), Some("1"));
    assert_eq!(variables.resolve("CURSOR_NUMBER"), Some("1"));
    assert_eq!(variables.resolve("UUID").map(str::len), Some(36));
}

#[test]
fn the_path_of_a_document_is_cut_into_its_parts() {
    let context = SnippetVariableContext::new("/a/b/.profile").workspace_root("/z");
    let variables =
        SnippetVariables::for_completion(&context, &Rope::from_str(""), 0, "", None);
    assert_eq!(variables.resolve("TM_FILEPATH"), Some("/a/b/.profile"));
    assert_eq!(variables.resolve("TM_DIRECTORY"), Some("/a/b"));
    assert_eq!(variables.resolve("TM_FILENAME_BASE"), Some(".profile"));
    assert_eq!(variables.resolve("RELATIVE_FILEPATH"), Some("/a/b/.profile"));
    assert_eq!(variables.resolve("WORKSPACE_FOLDER"), Some("/z"));
    assert_eq!(variables.resolve("WORKSPACE_NAME"), Some("z"));
}

fn path_variables(path: &str, root: &str) -> SnippetVariables {
    let context = SnippetVariableContext::new(path).workspace_root(root);
    SnippetVariables::for_completion(&context, &Rope::from_str(""), 0, "", None)
}

#[test]
fn a_relative_path_lies_in_what_stands_before_its_last_slash() {
    let variables = path_variables("app/src/main.rs", "app/");
    assert_eq!(variables.resolve("TM_FILENAME"), Some("main.rs"));
    assert_eq!(variables.resolve("TM_DIRECTORY"), Some("app/src"));
    assert_eq!(variables.resolve("TM_DIRECTORY_BASE"), Some("src"));
    assert_eq!(variables.resolve("RELATIVE_FILEPATH"), Some("src/main.rs"));
    assert_eq!(variables.resolve("WORKSPACE_NAME"), Some("app"));
}

#[test]
fn a_path_below_the_root_loses_its_slash() {
    let variables = path_variables("/notes", "/");
    assert_eq!(variables.resolve("TM_FILENAME"), Some("notes"));
    assert_eq!(variables.resolve("TM_DIRECTORY"), Some("/"));
    assert_eq!(variables.resolve("TM_DIRECTORY_BASE"), None);
    assert_eq!(variables.resolve("RELATIVE_FILEPATH"), Some("notes"));
    assert_eq!(variables.resolve("WORKSPACE_FOLDER"), Some("/"));
    assert_eq!(variables.resolve("WORKSPACE_NAME"), None);
}

#[test]
fn only_whole_components_are_taken_off_a_path() {
    let variables = path_variables("/ab/c", "/a");
    assert_eq!(variables.resolve("RELATIVE_FILEPATH"), Some("/ab/c"));
    let variables = path_variables("notes", "/");
    assert_eq!(variables.resolve("RELATIVE_FILEPATH"), Some("notes"));
}

#[test]
fn a_single_name_lies_in_the_empty_path() {
    let variables = path_variables("notes", "notes");
    assert_eq!(variables.resolve("TM_FILENAME"), Some("notes"));
    assert_eq!(variables.resolve("TM_DIRECTORY"), Some(""));
    assert_eq!(variables.resolve("TM_DIRECTORY_BASE"), None);
    assert_eq!(variables.resolve("RELATIVE_FILEPATH"), Some(""));
}

#[test]
fn a_path_that_ends_in_two_dots_has_no_name() {
    let variables = path_variables("/a/b/..", "/a/../c");
    assert_eq!(variables.resolve("TM_FILENAME"), None);
    assert_eq!(variables.resolve("TM_DIRECTORY"), Some("/a/b"));
    assert_eq!(variables.resolve("TM_DIRECTORY_BASE"), Some("b"));
    assert_eq!(variables.resolve("RELATIVE_FILEPATH"), Some("/a/b/.."));
    assert_eq!(variables.resolve("WORKSPACE_NAME"), Some("c"));
}

#[test]
fn a_reading_of_the_clock_and_a_random_number_give_exact_values() {
    let parts = PathParts {
        file_name: None,
        directory: None,
        directory_name: None,
        below_workspace: None,
        workspace_name: None,
    };
    let now = ClockReading {
        year: 2024,
        month: 3,
        day: 7,
        hour: 5,
        minute: 4,
        second: 9,
        millisecond: 31,
        day_name: "Thursday".to_string(),
        day_name_short: "Thu".to_string(),
        month_name: "March".to_string(),
        month_name_short: "Mar".to_string(),
        seconds_unix: 1_709_787_849,
        milliseconds_unix: 1_709_787_849_031,
        offset_seconds: -5 * 3600 - 30 * 60,
        zone_name: "-05:30".to_string(),
    };
    let variables = SnippetVariables::from_readings(
        &SnippetVariableContext::default(),
        &Rope::from_str(""),
        0,
        "",
        None,
        &parts,
        &now,
        (0x1_0000_002a, "uuid"),
    );
    assert_eq!(variables.resolve("CURRENT_YEAR"), Some("2024"));
    assert_eq!(variables.resolve("CURRENT_YEAR_SHORT"), Some("24"));
    assert_eq!(variables.resolve("CURRENT_MONTH"), Some("03"));
    assert_eq!(variables.resolve("CURRENT_MONTH_NAME"), Some("March"));
    assert_eq!(variables.resolve("CURRENT_DATE"), Some("07"));
    assert_eq!(variables.resolve("CURRENT_HOUR"), Some("05"));
    assert_eq!(variables.resolve("CURRENT_SECOND"), Some("09"));
    assert_eq!(variables.resolve("CURRENT_SECONDS_UNIX"), Some("1709787849"));
    assert_eq!(variables.resolve("CURRENT_TIMEZONE_OFFSET"), Some("-05:30"));
    assert_eq!(variables.resolve("RANDOM"), Some("967338"));
    assert_eq!(variables.resolve("RANDOM_HEX"), Some("00002a"));
    assert_eq!(variables.resolve("UUID"), Some("uuid"));
    assert_eq!(variables.resolve("NO_SUCH_NAME"), None);
}

#[test]
fn the_clock_is_read_in_range() {
    let variables = SnippetVariables::for_completion(
        &SnippetVariableContext::default(),
        &Rope::from_str(""),
        0,
        "",
        None,
    );
    let month: u32 = variables.resolve("CURRENT_MONTH").unwrap().parse().unwrap();
    assert!((1..=12).contains(&month));
    let random = variables.resolve("RANDOM").unwrap();
    assert_eq!(random.len(), 6);
    assert!(variables.resolve("CURRENT_YEAR").unwrap().len() >= 4);
    let day: u32 = variables.resolve("CURRENT_DATE").unwrap().parse().unwrap();
    assert!((1..=31).contains(&day));
    let name = variables.resolve("CURRENT_DAY_NAME").unwrap();
    assert!(name.ends_with("day"));
    assert_eq!(
        variables.resolve("CURRENT_DAY_NAME_SHORT"),
        Some(&name[..3])
    );
    let name = variables.resolve("CURRENT_MONTH_NAME").unwrap();
    assert_eq!(
        variables.resolve("CURRENT_MONTH_NAME_SHORT"),
        Some(&name[..3])
    );
    let uuid = variables.resolve("UUID").unwrap();
    assert_eq!(uuid.len(), 36);
    assert_eq!(&uuid[14..15], "4");
    assert!("89ab".contains(&uuid[19..20]));
    assert!([8, 13, 18, 23].iter().all(|at| &uuid[*at..at + 1] == "-"));
    assert_eq!(variables.resolve("RANDOM_HEX"), Some(&uuid[30..]));
}

#[test]
fn long_values_are_cut_on_a_boundary() {
    let long = format!("x{}", "é".repeat(2_097_152));
    let variables = SnippetVariables::for_completion(
        &SnippetVariableContext::default(),
        &Rope::from_str(""),
        0,
        &long,
        None,
    );
    let kept = variables.resolve("TM_SELECTED_TEXT").unwrap();
    assert_eq!(kept.len(), 4_194_303);
    assert!(long.starts_with(kept));
}
