use editor_input::lsp::completions::LineEnding;
use editor_input::snippet::{parse_snippet, parse_snippet_with_variables, SnippetTabstop};
use editor_input::snippet_indentation::adjust_text_indentation;
use editor_input::snippet_session::SnippetSession;
use editor_input::snippet_variables::{SnippetVariableContext, SnippetVariables};
use editor_input::TabSize;
use ropey::Rope;

#[test]
fn parses_ordered_placeholders_mirrors_choices_and_final_cursor() {
    let parsed = parse_snippet("fn ${1:name}(${2|value,other|}) { $1($2); }$0");
    assert_eq!(parsed.text, "fn name(value) { name(value); }");
    assert_eq!(
        parsed.tabstops,
        vec![
            SnippetTabstop {
                index: 1,
                ranges: vec![3..7, 17..21],
            },
            SnippetTabstop {
                index: 2,
                ranges: vec![8..13, 22..27],
            },
            SnippetTabstop {
                index: 0,
                ranges: vec![31..31],
            },
        ]
    );
}

#[test]
fn parses_nested_placeholders_and_escaped_metacharacters() {
    let parsed = parse_snippet(r"${1:outer ${2:inner}} \$ \\ \} ${3|a\,b,c|}");
    assert_eq!(parsed.text, "outer inner $ \\ } a,b");
    assert_eq!(parsed.tabstops[0].ranges, vec![0..11]);
    assert_eq!(parsed.tabstops[1].ranges, vec![6..11]);
    assert_eq!(parsed.tabstops[2].ranges, vec![18..21]);
}

#[test]
fn snippet_session_tracks_active_edits_and_rejects_external_mutation() {
    let parsed = parse_snippet("${1:name} = $1;$0");
    let mut session = SnippetSession::new(&parsed, 10).unwrap();
    assert_eq!(session.active_range(), Some(10..14));
    assert!(session.track_user_edit(10..14, 2));
    assert_eq!(session.active_range(), Some(10..12));
    assert_eq!(session.active_mirrors(), &[15..19]);
    assert!(!session.track_user_edit(0..0, 1));
}

#[test]
fn zero_width_active_tabstop_grows_when_the_user_types() {
    let parsed = parse_snippet("before $1 after$0");
    let mut session = SnippetSession::new(&parsed, 0).unwrap();
    assert_eq!(session.active_range(), Some(7..7));
    assert!(session.track_user_edit(7..7, 3));
    assert_eq!(session.active_range(), Some(7..10));
    assert_eq!(session.move_next(), Some(16..16));
    assert!(session.active_is_final());
}

#[test]
fn variables_take_their_default_and_unknown_ones_their_text() {
    assert_eq!(parse_snippet("${TM_SELECTED_TEXT:none}").text, "");
    assert_eq!(parse_snippet("${OTHER:none}").text, "none");
    assert_eq!(parse_snippet("$OTHER").text, "OTHER");
    assert_eq!(parse_snippet("a$CLIPBOARD b").text, "a b");
    assert!(parse_snippet("plain").tabstops.is_empty());
}

#[test]
fn moving_back_undoes_moving_on() {
    let parsed = parse_snippet("$1-$2-$0");
    let mut session = SnippetSession::new(&parsed, 0).unwrap();
    assert_eq!(session.active_tabstop_index(), Some(1));
    assert_eq!(session.move_next(), Some(1..1));
    assert_eq!(session.active_tabstop_index(), Some(2));
    assert_eq!(session.move_previous(), Some(0..0));
    assert_eq!(session.active_tabstop_index(), Some(1));
    assert_eq!(session.move_previous(), Some(0..0));
    session.move_next();
    session.move_next();
    assert_eq!(session.move_next(), None);
}

#[test]
fn several_insertions_share_one_session() {
    let parsed = parse_snippet("${1:x}$0");
    let session = SnippetSession::new_many(&parsed, &[0, 10]).unwrap();
    assert_eq!(session.instance_count(), 2);
    assert_eq!(session.active_ranges(), vec![0..1, 10..11]);
}

#[test]
fn variables_are_read_with_defaults_and_transformations() {
    let context = SnippetVariableContext::new("/a/some-file.rs");
    let variables =
        SnippetVariables::for_completion(&context, &Rope::from_str("x"), 0, "", None);
    let read = |source: &str| parse_snippet_with_variables(source, &variables).text;
    assert_eq!(read("$TM_FILENAME"), "some-file.rs");
    assert_eq!(read("${TM_FILENAME}!"), "some-file.rs!");
    assert_eq!(read("${TM_FILENAME:default}"), "some-file.rs");
    assert_eq!(read("${CLIPBOARD:${1:nothing}}"), "nothing");
    assert_eq!(read("[$CLIPBOARD][$NO_SUCH]"), "[][NO_SUCH]");
    assert_eq!(
        read("${TM_FILENAME_BASE/(.*)-(.*)/${1:/capitalize}${2:/capitalize}/}"),
        "SomeFile"
    );
    assert_eq!(read("${TM_FILENAME/[\\.-]/_/g}"), "some_file_rs");
    assert_eq!(read("${TM_FILEPATH/\\//:/g}"), ":a:some-file.rs");
    assert_eq!(read("${CLIPBOARD/(x)?/${1:-none}/}"), "none");
    // A transformation that cannot be read stands as it is written.
    assert_eq!(read("${TM_FILENAME/(/x/}"), "${TM_FILENAME/(/x/}");
    assert_eq!(read("${TM_FILENAME/a/b/y}"), "${TM_FILENAME/a/b/y}");
    assert_eq!(read("${TM_FILENAME/a/b"), "${TM_FILENAME/a/b");
    assert_eq!(parse_snippet("${TM_FILENAME/a/b/}").text, "${TM_FILENAME/a/b/}");
}

#[test]
fn tab_stops_move_with_the_indentation() {
    let mut parsed = parse_snippet("${1:é}\n\t${2:b}\r\n \t$0c\td\re");
    parsed.adjust_indentation(
        "  ",
        TabSize {
            tab_size: 3,
            hard_tabs: false,
        },
        LineEnding::Lf,
    );
    assert_eq!(parsed.text, "é\n     b\n      c\td\n  e");
    let ranges: Vec<_> = parsed
        .tabstops
        .iter()
        .map(|tabstop| tabstop.ranges.clone())
        .collect();
    assert_eq!(ranges, vec![vec![0..2], vec![8..9], vec![16..16]]);

    assert_eq!(
        adjust_text_indentation("\ta", "  ", TabSize::default(), LineEnding::CrLf),
        "\ta"
    );
    assert_eq!(
        adjust_text_indentation(
            "a\n\tb",
            "\t",
            TabSize {
                tab_size: 4,
                hard_tabs: true,
            },
            LineEnding::CrLf
        ),
        "a\r\n\t\tb"
    );
}
