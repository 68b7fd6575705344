use editor_core::actions::{
    ConfirmCodeAction, ConfirmCompletion, FoldAt, MovePageDown, MovePageUp, SelectAllMatches,
    SelectNext, SelectPrevious, SelectToBeginningOfLine, SelectToEndOfLine, ToggleCodeActions,
    ToggleComments, UnfoldAt,
};
use editor_core::assertion_context::AssertionContextManager;
use editor_core::error::Error;
use editor_core::multi_buffer::Excerpt;
use editor_core::test_buffer::{build_multibuffer, folder_for, AsBuffer, TestBufferDescription};
use editor_core::text::string_of;

#[test]
fn context_prints_the_texts_in_order() {
    let mut contexts = AssertionContextManager::new();
    assert_eq!(contexts.context(), "\n\n");
    let first = contexts.add_context("Initial Editor State: \"ab\"".to_string());
    let second = contexts.add_context("Simulated Keystroke: \"x\"".to_string());
    assert_eq!((first, second), (0, 1));
    assert_eq!(
        contexts.context(),
        "\nInitial Editor State: \"ab\"\nSimulated Keystroke: \"x\"\n"
    );
    contexts.remove_context(first);
    assert_eq!(contexts.context(), "\nSimulated Keystroke: \"x\"\n");
    contexts.remove_context(7);
    assert_eq!(contexts.count(), 1);
    let third = contexts.add_context("third".to_string());
    assert_eq!(third, 2);
    assert_eq!(contexts.context(), "\nSimulated Keystroke: \"x\"\nthird\n");
}

#[test]
fn actions_default_to_unset() {
    assert!(!SelectNext::default().replace_newest);
    assert!(!SelectPrevious::default().replace_newest);
    assert!(!SelectAllMatches::default().replace_newest);
    assert!(!SelectToBeginningOfLine::default().stop_at_soft_wraps);
    assert!(!SelectToEndOfLine::default().stop_at_soft_wraps);
    assert!(!MovePageUp::default().center_cursor);
    assert!(!MovePageDown::default().center_cursor);
    assert!(!ToggleCodeActions::default().deployed_from_indicator);
    assert!(!ToggleComments::default().advance_downwards);
    assert_eq!(ConfirmCompletion::default().item_ix, None);
    assert_eq!(ConfirmCodeAction::default().item_ix, None);
    assert_eq!(FoldAt::default().buffer_row, 0);
    assert_eq!(UnfoldAt::default().buffer_row, 0);
    assert!(SelectNext::new(true).replace_newest);
    assert_eq!(ConfirmCompletion::new(Some(3)).item_ix, Some(3));
    assert!(FoldAt::new(4) == FoldAt { buffer_row: 4 });
}

fn descriptions() -> Vec<TestBufferDescription> {
    vec![
        TestBufferDescription::new("fn a() {}".to_string(), vec![0..4, 5..9]),
        TestBufferDescription::with_file("b.rs".to_string(), "fn b() {}".to_string(), vec![3..4]),
        TestBufferDescription::with_base(
            "c.rs".to_string(),
            "fn c() {}".to_string(),
            vec![],
            "fn old() {}".to_string(),
        ),
    ]
}

#[test]
fn multibuffer_is_built_from_descriptions() {
    let multi = build_multibuffer(&descriptions(), true).unwrap();
    assert_eq!(multi.buffer_count(), 3);
    assert_eq!(string_of(&multi.text()), "fn a\n) {}\nb");
    let excerpts: &Vec<Excerpt> = multi.excerpts();
    assert_eq!(excerpts.len(), 3);
    assert_eq!((excerpts[2].id, excerpts[2].buffer, excerpts[2].buffer_id), (2, 1, 1));
    assert_eq!(multi.buffer(2).unwrap().text(), "fn c() {}");
}

#[test]
fn members_get_their_base_text() {
    let multi = build_multibuffer(&descriptions(), false).unwrap();
    assert_eq!(multi.buffer(0).unwrap().diff_base(), &None);
    assert_eq!(multi.buffer(1).unwrap().diff_base(), &None);
    assert_eq!(multi.buffer(2).unwrap().diff_base(), &Some("fn old() {}".to_string()));
    assert_eq!(multi.buffer(2).unwrap().id(), 2);
    assert_eq!(string_of(&multi.text()), "fn a) {}b");
    assert_eq!(multi.next_excerpt_id(), 3);
}

#[test]
fn description_with_a_range_outside_its_text_is_refused() {
    let bad = vec![TestBufferDescription::new("abc".to_string(), vec![1..4])];
    assert!(matches!(build_multibuffer(&bad, false), Err(Error::InvalidRange)));
}

#[test]
fn folder_holds_the_named_files() {
    let (has_file, folder) = folder_for(&descriptions());
    assert!(has_file);
    assert_eq!(folder.len(), 2);
    assert_eq!(folder.get("b.rs").and_then(|v| v.as_str()), Some("fn b() {}"));
    assert_eq!(folder.get("c.rs").and_then(|v| v.as_str()), Some("fn c() {}"));
    let (has_file, folder) = folder_for(&vec![TestBufferDescription::new("x".to_string(), vec![])]);
    assert!(!has_file);
    assert!(folder.is_empty());
}

#[test]
fn description_describes_itself() {
    for description in descriptions() {
        let copy = description.as_buffer();
        assert_eq!(copy.marked_text, description.marked_text);
        assert_eq!(copy.base_text, description.base_text);
        assert_eq!(copy.file_name, description.file_name);
    }
    let copy = descriptions()[2].as_buffer();
    assert_eq!(copy.marked_text.0, "fn c() {}");
    assert_eq!(copy.base_text, Some("fn old() {}".to_string()));
    assert_eq!(copy.file_name, Some("c.rs".to_string()));
    assert_eq!(descriptions()[0].as_buffer().marked_text.1, vec![0..4, 5..9]);
}
