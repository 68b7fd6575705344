use editor_core::actions::SelectNext;
use editor_core::buffer::Edit;
use editor_core::display_map::{DisplayPoint, Fold};
use editor_core::editor::{EditApplied, Editor};
use editor_core::error::Error;
use editor_core::selections::{Autoscroll, SelectionRange};
use editor_core::text::chars_of;

fn edit(start: usize, end: usize, text: &str) -> Edit {
    Edit { start, end, text: chars_of(text) }
}

#[test]
fn set_state_sets_text_and_selections() {
    let mut editor = Editor::new("", None);
    let note = editor.set_state("one two three", &vec![(0, 3), (7, 4)]).unwrap();
    assert_eq!(editor.text(), "one two three");
    assert_eq!(note.autoscroll, Some(Autoscroll::Fit));
    assert_eq!(
        note.selections,
        vec![
            SelectionRange { id: 0, start: 0, end: 3, reversed: false },
            SelectionRange { id: 1, start: 4, end: 7, reversed: true },
        ]
    );
    assert_eq!(editor.selection_ranges(), vec![(0, 3), (7, 4)]);
    assert!(editor.selections_match(&vec![(0, 3), (7, 4)]));
    assert!(!editor.selections_match(&vec![(0, 3), (4, 7)]));
    assert!(!editor.selections_match(&vec![(0, 3)]));
}

#[test]
fn selecting_the_same_again_gives_no_notification() {
    let mut editor = Editor::new("abcdef", None);
    assert!(editor.select_ranges(None, &vec![(1, 2)]).is_some());
    assert!(editor.select_ranges(None, &vec![(1, 2)]).is_none());
}

#[test]
fn newest_selection_text_is_the_last_range() {
    let mut editor = Editor::new("one two three", None);
    assert_eq!(editor.newest_selection_text(), None);
    editor.select_ranges(None, &vec![(0, 3), (8, 13)]);
    assert_eq!(editor.newest_selection_text(), Some("three".to_string()));
}

#[test]
fn selections_follow_edits() {
    let mut editor = Editor::new("one two three", None);
    editor.select_ranges(None, &vec![(4, 7), (13, 13)]);
    editor.edit(vec![edit(0, 3, "1"), edit(13, 13, "!")]).unwrap();
    assert_eq!(editor.text(), "1 two three!");
    assert_eq!(editor.selection_ranges(), vec![(2, 5), (11, 11)]);
}

#[test]
fn folds_follow_edits() {
    let mut editor = Editor::new("0123456789abcdefghijklmnopqrst", None);
    assert_eq!(editor.fold(10, 20), Ok(()));
    assert_eq!(editor.fold(15, 25), Err(Error::OverlappingFold));
    assert_eq!(editor.display_point(25), DisplayPoint { row: 0, column: 16 });
    let applied = editor.edit(vec![edit(0, 0, "xx")]).unwrap();
    assert_eq!(applied, EditApplied { revision: 1, invalidated: Some((0, 0)) });
    assert_eq!(editor.display_map().folds(), &vec![Fold { start: 12, end: 22 }]);
    assert_eq!(editor.display_point(27), DisplayPoint { row: 0, column: 18 });
    editor.edit(vec![edit(10, 24, "")]).unwrap();
    assert_eq!(editor.display_map().folds().len(), 0);
}

#[test]
fn unfold_gives_up_the_folds_it_meets() {
    let mut editor = Editor::new("0123456789abcdefghij", None);
    editor.fold(2, 4).unwrap();
    editor.fold(6, 9).unwrap();
    editor.fold(12, 15).unwrap();
    assert_eq!(editor.unfold(8, 13), 2);
    assert_eq!(editor.display_map().folds(), &vec![Fold { start: 2, end: 4 }]);
    assert_eq!(editor.unfold(4, 20), 0);
}

#[test]
fn edit_names_the_rows_to_draw_again() {
    let mut editor = Editor::new("aa\nbb\ncc\ndd", None);
    let applied = editor.edit(vec![edit(4, 4, "X")]).unwrap();
    assert_eq!(applied.invalidated, Some((1, 2)));
    let applied = editor.edit(vec![edit(10, 12, "")]).unwrap();
    assert_eq!(applied.invalidated, Some((3, 3)));
    let applied = editor.edit(vec![edit(9, 9, "!"), edit(1, 2, "")]).unwrap();
    assert_eq!(applied, EditApplied { revision: 3, invalidated: Some((0, 3)) });
    assert_eq!(editor.text(), "a\nbXb\ncc!\n");
    let applied = editor.edit(vec![edit(6, 6, "\n"), edit(0, 0, "")]).unwrap();
    assert_eq!(applied.invalidated, Some((0, 4)));
    let applied = editor.edit(vec![]).unwrap();
    assert_eq!(applied, EditApplied { revision: 5, invalidated: None });
    assert_eq!(editor.edit(vec![edit(3, 2, "")]), Err(Error::InvalidRange));
    assert_eq!(editor.buffer().revision(), 5);
}

#[test]
fn select_next_follows_the_action() {
    let mut editor = Editor::new("one two one two", None);
    editor.select_ranges(None, &vec![(0, 3)]);
    let note = editor.select_next(&SelectNext::default(), 8, 11).unwrap();
    assert_eq!(note.autoscroll, Some(Autoscroll::Newest));
    assert_eq!(editor.selection_ranges(), vec![(0, 3), (8, 11)]);
    editor.select_next(&SelectNext::new(true), 4, 7);
    assert_eq!(editor.selection_ranges(), vec![(0, 3), (4, 7)]);
    assert_eq!(editor.selections().newest().unwrap().id, 1);
}

#[test]
fn set_text_gives_up_the_folds() {
    let mut editor = Editor::new("0123456789", Some(4));
    editor.fold(2, 6).unwrap();
    let applied = editor.set_text("abc\ndef");
    assert_eq!(applied.revision, 1);
    assert_eq!(editor.text(), "abc\ndef");
    assert_eq!(editor.display_map().folds().len(), 0);
    assert_eq!(editor.display_map().wrap_width(), Some(4));
    assert_eq!(editor.display_point(5), DisplayPoint { row: 1, column: 1 });
}

#[test]
fn set_state_keeps_the_buffer_and_notifies_once() {
    let mut editor = Editor::new("one two", None);
    let anchor = editor.buffer().anchor_after(3);
    editor.fold(4, 7).unwrap();
    assert!(editor.set_state("three", &vec![]).is_none());
    assert_eq!(editor.buffer().revision(), 1);
    assert!(editor.buffer().owns_anchor(&anchor));
    assert_eq!(editor.buffer().offset_of(&anchor), 5);
    assert_eq!(editor.display_map().folds().len(), 0);
    let note = editor.set_state("four", &vec![(1, 2)]).unwrap();
    assert_eq!(note.selections, vec![SelectionRange { id: 0, start: 1, end: 2, reversed: false }]);
    assert!(editor.set_state("four", &vec![(1, 2)]).is_some());
    assert!(editor.set_state("five", &vec![]).is_some());
    assert!(editor.set_state("six", &vec![]).is_none());
    assert_eq!(editor.buffer().revision(), 5);
    assert_eq!(editor.fold(2, 9), Err(Error::InvalidRange));
    editor.fold(0, 2).unwrap();
    assert_eq!(editor.fold(1, 9), Err(Error::OverlappingFold));
}
