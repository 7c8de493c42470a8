use editor_input::{EditorSelection, Position, Selection};

#[test]
fn test_line_column_from_to() {
    assert_eq!(
        Position::new(1, 2),
        Position {
            line: 1,
            character: 2
        }
    );
}

#[test]
fn editor_selection_tracks_anchor_and_active_head() {
    let forward = EditorSelection::from_anchor_and_head(2, 8);
    assert_eq!(forward.range, Selection::new(2, 8));
    assert_eq!(forward.anchor(), 2);
    assert_eq!(forward.head(), 8);

    let reversed = EditorSelection::from_anchor_and_head(8, 2);
    assert_eq!(reversed.range, Selection::new(2, 8));
    assert_eq!(reversed.anchor(), 8);
    assert_eq!(reversed.head(), 2);
}

#[test]
fn a_selection_holds_its_start_but_not_its_end() {
    let mut selection = Selection::new(2, 5);
    assert_eq!(selection.len(), 3);
    assert!(selection.contains(2));
    assert!(selection.contains(4));
    assert!(!selection.contains(5));
    assert!(!selection.is_empty());
    selection.clear();
    assert!(selection.is_empty());
    assert_eq!(Selection::new(9, 4).len(), 0);
}
