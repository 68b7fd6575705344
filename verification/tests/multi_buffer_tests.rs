use editor_core::buffer::{Buffer, Edit};
use editor_core::error::Error;
use editor_core::multi_buffer::{ExcerptRange, Location, MultiBuffer};
use editor_core::selections::SelectionSet;
use editor_core::text::{chars_of, string_of};

fn whole(len: usize) -> ExcerptRange {
    ExcerptRange { context_start: 0, context_end: len, primary: None }
}

fn two_buffers(separators: bool) -> MultiBuffer {
    let mut multi = MultiBuffer::new(separators);
    let first = multi.add_buffer(Buffer::new(10, "0123456789"));
    let second = multi.add_buffer(Buffer::new(20, "abcdefghijklmnopqrst"));
    multi.push_excerpts(first, &vec![whole(10)]).unwrap();
    multi.push_excerpts(second, &vec![whole(20)]).unwrap();
    multi
}

#[test]
fn edit_is_forwarded_to_the_second_buffer() {
    let mut multi = two_buffers(false);
    let forwarded = multi.edit(15, 15, chars_of("!")).unwrap();
    assert_eq!(forwarded.excerpt, 1);
    assert_eq!(forwarded.buffer, 1);
    assert_eq!(forwarded.buffer_id, 20);
    assert_eq!(forwarded.start, 5);
    assert_eq!(forwarded.end, 5);
    assert_eq!(forwarded.revision, 1);
    assert_eq!(multi.buffer(1).unwrap().text(), "abcde!fghijklmnopqrst");
    assert_eq!(multi.buffer(0).unwrap().text(), "0123456789");
    assert_eq!(string_of(&multi.text()), "0123456789abcde!fghijklmnopqrst");
}

#[test]
fn edit_across_excerpts_is_rejected() {
    let mut multi = two_buffers(false);
    assert_eq!(multi.edit(8, 12, chars_of("x")), Err(Error::CrossExcerptEdit));
    assert_eq!(multi.edit(12, 8, chars_of("x")), Err(Error::InvalidRange));
    assert_eq!(multi.edit(29, 31, chars_of("x")), Err(Error::InvalidRange));
    assert_eq!(string_of(&multi.text()), "0123456789abcdefghijklmnopqrst");
    assert_eq!(multi.buffer(0).unwrap().revision(), 0);
    assert_eq!(multi.buffer(1).unwrap().revision(), 0);
}

#[test]
fn edit_between_two_excerpts_goes_to_the_first() {
    let mut multi = two_buffers(false);
    let forwarded = multi.edit(10, 10, chars_of("+")).unwrap();
    assert_eq!((forwarded.excerpt, forwarded.start), (0, 10));
    assert_eq!(string_of(&multi.text()), "0123456789+abcdefghijklmnopqrst");
}

#[test]
fn separators_take_one_offset() {
    let mut multi = two_buffers(true);
    assert_eq!(multi.total_len(), Some(31));
    assert_eq!(string_of(&multi.text()), "0123456789\nabcdefghijklmnopqrst");
    assert_eq!(multi.edit(10, 11, chars_of("")), Err(Error::CrossExcerptEdit));
    let forwarded = multi.edit(16, 17, chars_of("F")).unwrap();
    assert_eq!((forwarded.buffer, forwarded.start, forwarded.end), (1, 5, 6));
    assert_eq!(string_of(&multi.text()), "0123456789\nabcdeFghijklmnopqrst");
}

#[test]
fn excerpts_follow_the_edits_of_their_buffer() {
    let mut multi = MultiBuffer::new(false);
    let buffer = multi.add_buffer(Buffer::new(1, "one two three"));
    let ids = multi
        .push_excerpts(
            buffer,
            &vec![
                ExcerptRange { context_start: 0, context_end: 3, primary: None },
                ExcerptRange { context_start: 8, context_end: 13, primary: Some((9, 11)) },
            ],
        )
        .unwrap();
    assert_eq!(ids, vec![0, 1]);
    assert_eq!(string_of(&multi.text()), "onethree");
    multi.edit(3, 3, chars_of("s")).unwrap();
    assert_eq!(multi.buffer(buffer).unwrap().text(), "ones two three");
    assert_eq!(string_of(&multi.text()), "onesthree");
    assert_eq!(multi.excerpt_bounds(1), (9, 14));
}

#[test]
fn push_excerpts_checks_the_ranges() {
    let mut multi = MultiBuffer::new(false);
    let buffer = multi.add_buffer(Buffer::new(1, "abcdef"));
    let outside = ExcerptRange { context_start: 2, context_end: 7, primary: None };
    let loose = ExcerptRange { context_start: 2, context_end: 4, primary: Some((1, 3)) };
    assert_eq!(multi.push_excerpts(buffer, &vec![whole(6), outside]), Err(Error::InvalidRange));
    assert_eq!(multi.push_excerpts(buffer, &vec![loose]), Err(Error::InvalidRange));
    assert_eq!(multi.push_excerpts(buffer + 1, &vec![whole(1)]), Err(Error::InvalidRange));
    assert_eq!(multi.excerpts().len(), 0);
}

#[test]
fn removed_excerpts_leave_the_others_in_order() {
    let mut multi = MultiBuffer::new(false);
    let buffer = multi.add_buffer(Buffer::new(1, "abcdef"));
    let ids = multi
        .push_excerpts(
            buffer,
            &vec![
                ExcerptRange { context_start: 0, context_end: 2, primary: None },
                ExcerptRange { context_start: 2, context_end: 4, primary: None },
                ExcerptRange { context_start: 4, context_end: 6, primary: None },
            ],
        )
        .unwrap();
    assert_eq!(multi.remove_excerpts(&vec![ids[1], 99]), 1);
    assert_eq!(string_of(&multi.text()), "abef");
    let more = multi.push_excerpts(buffer, &vec![whole(1)]).unwrap();
    assert_eq!(more, vec![3]);
}

#[test]
fn singleton_passes_the_buffer_through() {
    let mut multi = MultiBuffer::singleton(Buffer::new(4, "hello world"));
    assert_eq!(multi.as_singleton().unwrap().text(), "hello world");
    assert_eq!(string_of(&multi.text()), "hello world");
    let forwarded = multi.edit(5, 5, chars_of(",")).unwrap();
    assert_eq!((forwarded.start, forwarded.end), (5, 5));
    assert_eq!(multi.as_singleton().unwrap().text(), "hello, world");
    assert!(two_buffers(false).as_singleton().is_none());
}

#[test]
fn snapshot_translates_offsets() {
    let mut multi = two_buffers(true);
    let snapshot = multi.snapshot();
    multi.edit(0, 1, chars_of("")).unwrap();
    assert_eq!(string_of(snapshot.text()), "0123456789\nabcdefghijklmnopqrst");
    assert_eq!(snapshot.entries().len(), 2);
    assert_eq!(snapshot.entries()[1].start, 11);
    assert_eq!(
        snapshot.locate(15),
        Some(Location { excerpt: 1, buffer: 1, buffer_id: 20, offset: 4 })
    );
    assert_eq!(
        snapshot.locate(10),
        Some(Location { excerpt: 0, buffer: 0, buffer_id: 10, offset: 10 })
    );
    assert_eq!(snapshot.locate(31).unwrap().offset, 20);
    assert_eq!(snapshot.locate(32), None);
    assert_eq!(MultiBuffer::new(false).snapshot().locate(0), None);
}

fn overlapping() -> MultiBuffer {
    let mut multi = MultiBuffer::new(false);
    let shared = multi.add_buffer(Buffer::new(1, "abcdefghij"));
    let other = multi.add_buffer(Buffer::new(2, "KLMNO"));
    multi
        .push_excerpts(
            shared,
            &vec![
                ExcerptRange { context_start: 0, context_end: 6, primary: None },
                ExcerptRange { context_start: 4, context_end: 10, primary: None },
            ],
        )
        .unwrap();
    multi.push_excerpts(other, &vec![whole(5)]).unwrap();
    multi
}

fn edit(start: usize, end: usize, text: &str) -> Edit {
    Edit { start, end, text: chars_of(text) }
}

#[test]
fn edit_many_reports_partial_failure() {
    let mut multi = overlapping();
    let result = multi.edit_many(&vec![edit(4, 6, "x"), edit(7, 8, "y"), edit(13, 14, "z")]);
    assert_eq!(
        result,
        Err(Error::PartialMultiBufferFailure { succeeded: vec![1], failed: vec![0] })
    );
    assert_eq!(multi.buffer(0).unwrap().text(), "abcdefghij");
    assert_eq!(multi.buffer(1).unwrap().text(), "KzMNO");
}

#[test]
fn edit_many_edits_each_member_once() {
    let mut multi = overlapping();
    let result = multi.edit_many(&vec![edit(0, 1, "A"), edit(2, 3, "C"), edit(13, 13, "-")]);
    assert_eq!(result, Ok(vec![0, 1]));
    assert_eq!(multi.buffer(0).unwrap().text(), "AbCdefghij");
    assert_eq!(multi.buffer(0).unwrap().revision(), 1);
    assert_eq!(multi.buffer(1).unwrap().text(), "K-LMNO");
    let result = multi.edit_many(&vec![edit(12, 12, "+")]);
    assert_eq!(result, Ok(vec![0]));
    assert_eq!(multi.buffer(0).unwrap().text(), "AbCdefghij+");
}

#[test]
fn edit_many_rejects_before_it_edits() {
    let mut multi = overlapping();
    assert_eq!(
        multi.edit_many(&vec![edit(13, 14, "z"), edit(5, 7, "x")]),
        Err(Error::CrossExcerptEdit)
    );
    assert_eq!(
        multi.edit_many(&vec![edit(13, 14, "z"), edit(18, 17, "x")]),
        Err(Error::InvalidRange)
    );
    assert_eq!(multi.edit_many(&vec![edit(4, 6, "x"), edit(7, 8, "y")]), Err(Error::InvalidRange));
    assert_eq!(multi.buffer(0).unwrap().revision(), 0);
    assert_eq!(multi.buffer(1).unwrap().revision(), 0);
}

#[test]
fn ranges_are_found_in_the_first_excerpt_that_holds_them() {
    let multi = two_buffers(true);
    assert_eq!(multi.find_excerpt(3, 10), Some((0, 3)));
    assert_eq!(multi.find_excerpt(11, 11), Some((1, 0)));
    assert_eq!(multi.find_excerpt(10, 11), None);
    assert!(multi.within(31));
    assert!(!multi.within(32));
    assert_eq!(multi.next_excerpt_id(), 2);
    assert_eq!(multi.buffer_count(), 2);
    assert!(multi.buffer(2).is_none());
    assert_eq!(MultiBuffer::new(true).total_len(), Some(0));
}

#[test]
fn selections_of_a_member_are_placed_in_the_multi_buffer() {
    let mut multi = two_buffers(true);
    let mut set = SelectionSet::new();
    set.select_ranges(multi.buffer(1).unwrap(), &vec![(2, 5)]).unwrap();
    multi.edit(11, 11, chars_of(">>")).unwrap();
    let member = multi.buffer(1).unwrap();
    let range = set.resolved(member)[0];
    assert_eq!((range.start, range.end), (4, 7));
    assert_eq!(multi.to_multi_offset(1, range.start), Some(15));
    assert_eq!(multi.to_multi_offset(1, range.end), Some(18));
    assert_eq!(multi.to_multi_offset(1, 23), None);
    assert_eq!(multi.to_multi_offset(2, 0), None);
    assert_eq!(multi.excerpt_start(1), Some(11));
    let snapshot = multi.snapshot();
    assert_eq!(snapshot.locate(15).unwrap().offset, 4);
}
