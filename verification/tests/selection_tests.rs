use editor_core::buffer::Buffer;
use editor_core::error::Error;
use editor_core::selections::{Autoscroll, SelectionRange, SelectionSet};

#[test]
fn replace_newest_keeps_one_selection() {
    let buffer = Buffer::new(1, "hello world");
    let mut set = SelectionSet::new();
    set.change_selections(Some(Autoscroll::Fit), &buffer, |s| s.select_ranges(&vec![(0, 3)]))
        .unwrap();
    let note = set
        .change_selections(None, &buffer, |s| s.select_next(5, 8, true))
        .unwrap()
        .unwrap();
    assert_eq!(set.count(), 1);
    assert_eq!(
        set.resolved(&buffer),
        vec![SelectionRange { id: 0, start: 5, end: 8, reversed: false }]
    );
    assert_eq!(note.selections, set.resolved(&buffer));
}

#[test]
fn select_next_without_the_flag_appends() {
    let buffer = Buffer::new(1, "hello world");
    let mut set = SelectionSet::new();
    set.change_selections(None, &buffer, |s| s.select_ranges(&vec![(0, 3)])).unwrap();
    set.change_selections(None, &buffer, |s| s.select_next(5, 8, false)).unwrap();
    assert_eq!(set.count(), 2);
    assert_eq!(set.newest().unwrap().id, 1);
    assert_eq!(set.oldest().unwrap().id, 0);
}

#[test]
fn unchanged_set_gives_no_notification() {
    let buffer = Buffer::new(1, "hello world");
    let mut set = SelectionSet::new();
    let note = set.change_selections(None, &buffer, |s| s).unwrap();
    assert_eq!(note, None);
}

#[test]
fn second_change_is_refused_while_one_is_open() {
    let buffer = Buffer::new(1, "hello world");
    let mut set = SelectionSet::new();
    let handle = set.begin_change(&buffer).unwrap();
    assert!(set.is_mutating());
    assert!(matches!(set.begin_change(&buffer), Err(Error::ReentrantChange)));
    let handle = handle.add(1, 2).add(4, 3);
    assert_eq!(set.count(), 0);
    let note = set.commit(handle, Some(Autoscroll::Newest)).unwrap();
    assert_eq!(note.autoscroll, Some(Autoscroll::Newest));
    assert_eq!(
        note.selections,
        vec![
            SelectionRange { id: 0, start: 1, end: 2, reversed: false },
            SelectionRange { id: 1, start: 3, end: 4, reversed: true },
        ]
    );
    assert!(!set.is_mutating());
}

#[test]
fn handle_removes_and_replaces_by_id() {
    let buffer = Buffer::new(1, "hello world");
    let mut set = SelectionSet::new();
    set.change_selections(None, &buffer, |s| {
        s.select_ranges(&vec![(0, 1), (2, 3), (4, 5)]).remove(1).replace(2, 9, 7).remove(8)
    })
    .unwrap();
    assert_eq!(
        set.resolved(&buffer),
        vec![
            SelectionRange { id: 0, start: 0, end: 1, reversed: false },
            SelectionRange { id: 2, start: 7, end: 9, reversed: true },
        ]
    );
    assert!(set.belongs_to(&buffer));
    assert!(!set.belongs_to(&Buffer::new(2, "hello world")));
    assert_eq!(set.all().len(), 2);
    set.change_selections(None, &buffer, |s| s.clear()).unwrap();
    assert_eq!(set.count(), 0);
    assert_eq!(set.newest(), None);
    assert_eq!(set.oldest(), None);
}

#[test]
fn duplicates_are_merged_into_the_oldest() {
    let mut buffer = Buffer::new(1, "hello world");
    let mut set = SelectionSet::new();
    set.change_selections(None, &buffer, |s| s.select_ranges(&vec![(1, 3), (2, 4), (7, 8)]))
        .unwrap();
    buffer
        .edit(vec![editor_core::buffer::Edit { start: 0, end: 5, text: vec![] }])
        .unwrap();
    assert_eq!(
        set.resolved(&buffer),
        vec![
            SelectionRange { id: 0, start: 0, end: 0, reversed: false },
            SelectionRange { id: 1, start: 0, end: 0, reversed: false },
            SelectionRange { id: 2, start: 2, end: 3, reversed: false },
        ]
    );
    let note = set
        .change_selections(Some(Autoscroll::Center), &buffer, |s| s.merge_duplicates())
        .unwrap()
        .unwrap();
    assert_eq!(
        note.selections,
        vec![
            SelectionRange { id: 0, start: 0, end: 0, reversed: false },
            SelectionRange { id: 2, start: 2, end: 3, reversed: false },
        ]
    );
}

#[test]
fn offsets_behind_the_text_count_as_its_end() {
    let buffer = Buffer::new(1, "abc");
    let mut set = SelectionSet::new();
    let handle = set.begin_change(&buffer).unwrap();
    assert!(handle.has_id_left());
    assert_eq!(handle.count(), 0);
    let handle = handle.replace_newest(2, 9);
    assert_eq!(handle.count(), 1);
    set.commit(handle, None);
    assert_eq!(
        set.resolved(&buffer),
        vec![SelectionRange { id: 0, start: 2, end: 3, reversed: false }]
    );
}

#[test]
fn select_ranges_replaces_the_whole_set() {
    let buffer = Buffer::new(1, "hello world");
    let mut set = SelectionSet::new();
    set.select_ranges(&buffer, &vec![(0, 3), (4, 4)]).unwrap();
    let note = set.select_ranges(&buffer, &vec![(5, 8)]).unwrap().unwrap();
    assert_eq!(note.autoscroll, None);
    assert_eq!(
        set.resolved(&buffer),
        vec![SelectionRange { id: 0, start: 5, end: 8, reversed: false }]
    );
    assert_eq!(set.select_ranges(&buffer, &vec![(5, 8)]), Ok(None));
    let open = set.begin_change(&buffer).unwrap();
    assert_eq!(set.select_ranges(&buffer, &vec![(1, 2)]), Err(Error::ReentrantChange));
    set.commit(open, None);
}
