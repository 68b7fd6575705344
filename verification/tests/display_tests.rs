use editor_core::display_map::{continues_cluster, DisplayMap, DisplayPoint, Fold};
use editor_core::error::Error;
use editor_core::text::chars_of;

#[test]
fn fold_takes_one_column() {
    let mut map = DisplayMap::new(chars_of("abcdefghijklmnopqrstuvwxyz0123"), None);
    let start = map.offset_to_display(10);
    assert_eq!(map.fold(10, 20), Ok(()));
    let point = map.offset_to_display(25);
    assert_eq!(point.row, 0);
    assert_eq!(point.column, (25 - 20) + start.column + 1);
    assert_eq!(point.column, 16);
}

#[test]
fn offsets_inside_a_fold_collapse_to_its_start() {
    let mut map = DisplayMap::new(chars_of("abcdefghijklmnopqrstuvwxyz0123"), None);
    map.fold(10, 20).unwrap();
    let inside = map.offset_to_display(15);
    assert_eq!(inside, DisplayPoint { row: 0, column: 10 });
    assert_eq!(map.display_to_offset(inside.row, inside.column), 10);
    for offset in (0..=10).chain(20..=30) {
        let point = map.offset_to_display(offset);
        assert_eq!(map.display_to_offset(point.row, point.column), offset);
    }
}

#[test]
fn fold_then_unfold_restores_the_mapping() {
    let text = chars_of("first line\nsecond line\nthird");
    let mut map = DisplayMap::new(text.clone(), Some(4));
    map.fold(2, 5).unwrap();
    let before: Vec<DisplayPoint> = (0..=text.len()).map(|o| map.offset_to_display(o)).collect();
    map.fold(12, 20).unwrap();
    assert_eq!(map.unfold(12, 20), 1);
    let after: Vec<DisplayPoint> = (0..=text.len()).map(|o| map.offset_to_display(o)).collect();
    assert_eq!(before, after);
    assert_eq!(map.folds(), &vec![Fold { start: 2, end: 5 }]);
}

#[test]
fn overlapping_fold_is_rejected() {
    let mut map = DisplayMap::new(chars_of("abcdefghijklmnopqrstuvwxyz"), None);
    map.fold(10, 20).unwrap();
    assert_eq!(map.fold(15, 25), Err(Error::OverlappingFold));
    assert_eq!(map.fold(5, 11), Err(Error::OverlappingFold));
    assert_eq!(map.fold(20, 22), Ok(()));
    assert_eq!(map.fold(3, 3), Err(Error::InvalidRange));
    assert_eq!(map.fold(20, 27), Err(Error::OverlappingFold));
    assert_eq!(map.fold(15, 40), Err(Error::OverlappingFold));
    assert_eq!(map.fold(12, 12), Err(Error::OverlappingFold));
    assert_eq!(map.fold(22, 27), Err(Error::InvalidRange));
    assert_eq!(map.fold(25, 24), Err(Error::InvalidRange));
    assert_eq!(
        map.folds(),
        &vec![Fold { start: 10, end: 20 }, Fold { start: 20, end: 22 }]
    );
}

#[test]
fn lines_and_wrapping() {
    let map = DisplayMap::new(chars_of("abcdef\ngh"), Some(4));
    assert_eq!(map.offset_to_display(0), DisplayPoint { row: 0, column: 0 });
    assert_eq!(map.offset_to_display(3), DisplayPoint { row: 0, column: 3 });
    assert_eq!(map.offset_to_display(4), DisplayPoint { row: 1, column: 0 });
    assert_eq!(map.offset_to_display(6), DisplayPoint { row: 1, column: 2 });
    assert_eq!(map.offset_to_display(7), DisplayPoint { row: 2, column: 0 });
    assert_eq!(map.offset_to_display(9), DisplayPoint { row: 2, column: 2 });
    assert_eq!(map.display_to_offset(0, 9), 3);
    assert_eq!(map.display_to_offset(1, 9), 6);
    assert_eq!(map.display_to_offset(7, 0), 9);
}

#[test]
fn clusters_are_not_split() {
    let text = chars_of("abe\u{301}d");
    let mut map = DisplayMap::new(text, Some(3));
    assert_eq!(map.offset_to_display(3), DisplayPoint { row: 0, column: 3 });
    assert_eq!(map.offset_to_display(4), DisplayPoint { row: 1, column: 0 });
    assert_eq!(map.fold(1, 3), Err(Error::InvalidRange));
    assert_eq!(map.fold(1, 4), Ok(()));
}

#[test]
fn rows_are_counted_to_the_end_of_the_text() {
    let mut map = DisplayMap::new(chars_of("ab\ncd\n"), None);
    assert_eq!(map.last_row(), 2);
    assert_eq!(map.len(), 6);
    assert_eq!(map.wrap_width(), None);
    map.set_wrap_width(Some(1));
    assert_eq!(map.last_row(), 4);
    assert_eq!(map.offset_to_display(99), DisplayPoint { row: 4, column: 0 });
    assert_eq!(DisplayMap::new(chars_of(""), Some(0)).last_row(), 0);
    assert!(map.is_cluster_boundary(3));
}

#[test]
fn unfold_removes_every_fold_it_meets() {
    let mut map = DisplayMap::new(chars_of("0123456789abcdefghij"), None);
    map.fold(6, 9).unwrap();
    map.fold(2, 4).unwrap();
    map.fold(12, 15).unwrap();
    assert_eq!(
        map.folds(),
        &vec![Fold { start: 2, end: 4 }, Fold { start: 6, end: 9 }, Fold { start: 12, end: 15 }]
    );
    assert_eq!(map.unfold(9, 12), 0);
    assert_eq!(map.unfold(8, 13), 2);
    assert_eq!(map.folds(), &vec![Fold { start: 2, end: 4 }]);
}

#[test]
fn folds_hide_line_ends() {
    let mut map = DisplayMap::new(chars_of("ab\ncd\nef"), None);
    map.fold(1, 4).unwrap();
    assert_eq!(map.offset_to_display(4), DisplayPoint { row: 0, column: 2 });
    assert_eq!(map.offset_to_display(6), DisplayPoint { row: 1, column: 0 });
    assert_eq!(map.display_to_offset(0, 1), 1);
    assert_eq!(map.display_to_offset(0, 7), 5);
    assert_eq!(map.last_row(), 1);
}

#[test]
fn combining_characters_continue_a_cluster() {
    assert!(continues_cluster('\u{301}'));
    assert!(continues_cluster('\u{200d}'));
    assert!(continues_cluster('\u{fe0f}'));
    assert!(!continues_cluster('e'));
    assert!(!continues_cluster('\n'));
}
