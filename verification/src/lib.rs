// The text-storage and coordinate-mapping core of a code editor.
//
// - `buffer`: a versioned text with anchors, positions that survive edits.
// - `multi_buffer`: excerpts of several buffers as one editable text.
// - `selections`: selections on anchors, changed in transactions.
// - `display_map`: offsets to display rows and columns, with folds and
//   soft wrapping.
// - `editor`: one editing session that keeps these in step.
// - `actions`: the settings of the editor's key-binding actions.
// - `assertion_context`, `test_buffer`: what tests of an editor are built
//   from.
//
// Every function states what it returns or changes, and the laws of the
// core are proof functions beside the functions they speak of.
pub mod actions;
pub mod assertion_context;
pub mod buffer;
pub mod display_map;
pub mod editor;
pub mod error;
pub mod multi_buffer;
pub mod selections;
pub mod test_buffer;
pub mod text;
