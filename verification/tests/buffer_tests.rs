use editor_core::buffer::{check_batch, sort_edits, splice, Bias, Buffer, Edit};
use editor_core::error::Error;
use editor_core::text::chars_of;

fn edit(start: usize, end: usize, text: &str) -> Edit {
    Edit { start, end, text: chars_of(text) }
}

#[test]
fn insertion_moves_anchor_after() {
    let mut buffer = Buffer::new(1, "hello world");
    let anchor = buffer.anchor_after(5);
    let revision = buffer.edit(vec![edit(5, 5, ",")]);
    assert_eq!(revision, Ok(1));
    assert_eq!(buffer.text(), "hello, world");
    assert_eq!(buffer.resolve_anchor(&anchor, 1), 6);
    assert_eq!(buffer.resolve_anchor(&anchor, 0), 5);
}

#[test]
fn insertion_leaves_anchor_before() {
    let mut buffer = Buffer::new(1, "hello world");
    let anchor = buffer.anchor_before(5);
    assert_eq!(anchor.bias, Bias::Before);
    buffer.edit(vec![edit(5, 5, ",")]).unwrap();
    assert_eq!(buffer.offset_of(&anchor), 5);
}

#[test]
fn overlapping_batch_is_rejected() {
    let mut buffer = Buffer::new(1, "hello world");
    let result = buffer.edit(vec![edit(0, 5, "a"), edit(4, 6, "b")]);
    assert_eq!(result, Err(Error::InvalidRange));
    assert_eq!(buffer.text(), "hello world");
    assert_eq!(buffer.revision(), 0);
}

#[test]
fn out_of_bounds_edit_is_rejected() {
    let mut buffer = Buffer::new(1, "abc");
    assert_eq!(buffer.edit(vec![edit(2, 4, "x")]), Err(Error::InvalidRange));
    assert_eq!(buffer.edit(vec![edit(2, 1, "x")]), Err(Error::InvalidRange));
    assert_eq!(buffer.text(), "abc");
}

#[test]
fn batch_replaces_all_ranges_of_the_old_text() {
    let mut buffer = Buffer::new(1, "one two three");
    let revision = buffer.edit(vec![edit(0, 3, "1"), edit(4, 7, "2"), edit(8, 13, "3")]);
    assert_eq!(revision, Ok(1));
    assert_eq!(buffer.text(), "1 2 3");
}

#[test]
fn anchor_follows_a_sequence_of_edits() {
    let mut buffer = Buffer::new(7, "abcdef");
    let before = buffer.anchor_before(3);
    let after = buffer.anchor_after(3);
    buffer.edit(vec![edit(0, 0, "xx")]).unwrap();
    buffer.edit(vec![edit(4, 6, "")]).unwrap();
    buffer.edit(vec![edit(4, 4, "yz")]).unwrap();
    assert_eq!(buffer.text(), "xxabyzef");
    assert_eq!(buffer.offset_of(&before), 4);
    assert_eq!(buffer.offset_of(&after), 6);
    assert_eq!(buffer.resolve_anchor(&after, 1), 5);
    assert_eq!(buffer.resolve_anchor(&after, 2), 4);
}

#[test]
fn snapshot_is_not_touched_by_later_edits() {
    let mut buffer = Buffer::new(1, "abc");
    let snapshot = buffer.snapshot();
    buffer.edit(vec![edit(0, 1, "z")]).unwrap();
    assert_eq!(snapshot.content, chars_of("abc"));
    assert_eq!(snapshot.revision, 0);
    assert_eq!(buffer.snapshot().content, chars_of("zbc"));
}

#[test]
fn replaced_range_collapses_anchors_by_their_bias() {
    let mut buffer = Buffer::new(1, "abcdefgh");
    let inside_before = buffer.anchor_before(4);
    let inside_after = buffer.anchor_after(4);
    let at_start = buffer.anchor_before(2);
    let at_end = buffer.anchor_after(6);
    let behind = buffer.anchor_before(7);
    buffer.edit(vec![edit(2, 6, "XY")]).unwrap();
    assert_eq!(buffer.text(), "abXYgh");
    assert_eq!(buffer.offset_of(&inside_before), 2);
    assert_eq!(buffer.offset_of(&inside_after), 4);
    assert_eq!(buffer.offset_of(&at_start), 2);
    assert_eq!(buffer.offset_of(&at_end), 4);
    assert_eq!(buffer.offset_of(&behind), 5);
}

#[test]
fn deletion_collapses_anchors_to_its_place() {
    let mut buffer = Buffer::new(1, "abcdefgh");
    let before = buffer.anchor_before(4);
    let after = buffer.anchor_after(4);
    buffer.edit(vec![edit(2, 6, "")]).unwrap();
    assert_eq!(buffer.offset_of(&before), 2);
    assert_eq!(buffer.offset_of(&after), 2);
}

#[test]
fn anchors_are_checked_before_they_are_resolved() {
    let mut buffer = Buffer::new(1, "abc");
    let other = Buffer::new(2, "abcdef");
    let anchor = buffer.anchor_after(9);
    assert_eq!(anchor.offset, 3);
    assert!(buffer.owns_anchor(&anchor));
    assert!(!buffer.owns_anchor(&other.anchor_before(1)));
    assert!(buffer.can_resolve(&anchor, 0));
    assert!(!buffer.can_resolve(&anchor, 1));
    buffer.edit(vec![edit(0, 0, "x")]).unwrap();
    assert!(buffer.can_resolve(&anchor, 1));
    let later = buffer.anchor_before(0);
    assert!(!buffer.can_resolve(&later, 0));
    let mut forged = later;
    forged.offset = 5;
    assert!(!buffer.owns_anchor(&forged));
}

#[test]
fn history_keeps_every_batch() {
    let mut buffer = Buffer::new(1, "abc");
    assert!(buffer.batch_after(0).is_none());
    buffer.edit(vec![edit(1, 2, "B")]).unwrap();
    buffer.edit(vec![]).unwrap();
    assert_eq!(buffer.batch_after(0), Some(&vec![edit(1, 2, "B")]));
    assert_eq!(buffer.batch_after(1), Some(&vec![]));
    assert!(buffer.batch_after(2).is_none());
    assert_eq!(buffer.revision(), 2);
    assert_eq!(buffer.len(), 3);
    assert_eq!(buffer.id(), 1);
}

#[test]
fn insertions_at_one_offset_come_in_the_order_given() {
    let mut buffer = Buffer::new(1, "ab");
    buffer.edit(vec![edit(1, 1, "1"), edit(1, 1, "2"), edit(1, 2, "B")]).unwrap();
    assert_eq!(buffer.text(), "a12B");
}

#[test]
fn ranges_may_come_in_any_order() {
    let mut buffer = Buffer::new(1, "one two three");
    let anchor = buffer.anchor_after(7);
    let revision = buffer.edit(vec![edit(8, 13, "3"), edit(0, 3, "1"), edit(4, 7, "2")]);
    assert_eq!(revision, Ok(1));
    assert_eq!(buffer.text(), "1 2 3");
    assert_eq!(buffer.offset_of(&anchor), 3);
    assert_eq!(
        buffer.batch_after(0),
        Some(&vec![edit(0, 3, "1"), edit(4, 7, "2"), edit(8, 13, "3")])
    );
    buffer.edit(vec![edit(2, 3, "B"), edit(2, 2, "a"), edit(2, 2, "b")]).unwrap();
    assert_eq!(buffer.text(), "1 abB 3");
    assert_eq!(buffer.edit(vec![edit(3, 5, ""), edit(4, 4, "x")]), Err(Error::InvalidRange));
    assert_eq!(buffer.edit(vec![edit(3, 5, ""), edit(0, 4, "")]), Err(Error::InvalidRange));
    assert_eq!(buffer.revision(), 2);
}

#[test]
fn batches_are_sorted_and_checked() {
    let given = vec![edit(4, 4, "b"), edit(0, 2, "a"), edit(4, 4, "c"), edit(4, 6, "d")];
    assert!(!check_batch(&given, 6));
    let sorted = sort_edits(given);
    assert_eq!(
        sorted,
        vec![edit(0, 2, "a"), edit(4, 4, "b"), edit(4, 4, "c"), edit(4, 6, "d")]
    );
    assert!(check_batch(&sorted, 6));
    assert!(!check_batch(&sorted, 5));
    assert_eq!(splice(&chars_of("abcdef"), &edit(1, 3, "XYZ")), chars_of("aXYZdef"));
}

#[test]
fn buffers_are_made_from_characters() {
    let buffer = Buffer::from_chars(9, vec!['a', '\u{e9}', 'z']);
    assert_eq!(buffer.chars(), &vec!['a', '\u{e9}', 'z']);
    assert_eq!(buffer.text(), "a\u{e9}z");
    assert_eq!(buffer.len(), 3);
    let anchor = buffer.anchor_at(2, Bias::After);
    assert_eq!((anchor.buffer_id, anchor.revision, anchor.offset), (9, 0, 2));
    assert_eq!(anchor.bias, Bias::After);
}

#[test]
fn diff_base_is_kept_beside_the_text() {
    let mut buffer = Buffer::new(1, "abc");
    let anchor = buffer.anchor_after(1);
    assert_eq!(buffer.diff_base(), &None);
    buffer.set_diff_base(Some("abd".to_string()));
    buffer.edit(vec![edit(0, 0, "x")]).unwrap();
    assert_eq!(buffer.diff_base(), &Some("abd".to_string()));
    assert_eq!(buffer.text(), "xabc");
    assert_eq!(buffer.offset_of(&anchor), 2);
    buffer.set_diff_base(None);
    assert_eq!(buffer.diff_base(), &None);
    assert_eq!(buffer.revision(), 1);
}
