use vstd::prelude::*;

verus! {

/// Select the next occurrence of the selected text.
#[derive(Clone, Copy, PartialEq, Eq, Structural, Debug)]
pub struct SelectNext {
    /// Move the newest selection to the match instead of adding one.
    pub replace_newest: bool,
}

impl SelectNext {
    /// The action with the given setting.
    pub fn new(replace_newest: bool) -> (r: Self)
        ensures
            r.replace_newest == replace_newest,
    {
        SelectNext { replace_newest }
    }
}

impl Default for SelectNext {
    /// The action as it is where the key binding sets nothing.
    fn default() -> (r: Self)
        ensures
            !r.replace_newest,
    {
        SelectNext { replace_newest: false }
    }
}

/// Select the previous occurrence of the selected text.
#[derive(Clone, Copy, PartialEq, Eq, Structural, Debug)]
pub struct SelectPrevious {
    /// Move the newest selection to the match instead of adding one.
    pub replace_newest: bool,
}

impl SelectPrevious {
    /// The action with the given setting.
    pub fn new(replace_newest: bool) -> (r: Self)
        ensures
            r.replace_newest == replace_newest,
    {
        SelectPrevious { replace_newest }
    }
}

impl Default for SelectPrevious {
    /// The action as it is where the key binding sets nothing.
    fn default() -> (r: Self)
        ensures
            !r.replace_newest,
    {
        SelectPrevious { replace_newest: false }
    }
}

/// Select every occurrence of the selected text.
#[derive(Clone, Copy, PartialEq, Eq, Structural, Debug)]
pub struct SelectAllMatches {
    /// Give up the newest selection for the matches.
    pub replace_newest: bool,
}

impl SelectAllMatches {
    /// The action with the given setting.
    pub fn new(replace_newest: bool) -> (r: Self)
        ensures
            r.replace_newest == replace_newest,
    {
        SelectAllMatches { replace_newest }
    }
}

impl Default for SelectAllMatches {
    /// The action as it is where the key binding sets nothing.
    fn default() -> (r: Self)
        ensures
            !r.replace_newest,
    {
        SelectAllMatches { replace_newest: false }
    }
}

/// Extend the selection to the beginning of the line.
#[derive(Clone, Copy, PartialEq, Eq, Structural, Debug)]
pub struct SelectToBeginningOfLine {
    /// Stop at the start of the display row rather than of the line.
    pub stop_at_soft_wraps: bool,
}

impl SelectToBeginningOfLine {
    /// The action with the given setting.
    pub fn new(stop_at_soft_wraps: bool) -> (r: Self)
        ensures
            r.stop_at_soft_wraps == stop_at_soft_wraps,
    {
        SelectToBeginningOfLine { stop_at_soft_wraps }
    }
}

impl Default for SelectToBeginningOfLine {
    /// The action as it is where the key binding sets nothing.
    fn default() -> (r: Self)
        ensures
            !r.stop_at_soft_wraps,
    {
        SelectToBeginningOfLine { stop_at_soft_wraps: false }
    }
}

/// Move the cursor one page up.
#[derive(Clone, Copy, PartialEq, Eq, Structural, Debug)]
pub struct MovePageUp {
    /// Scroll so that the cursor stands in the middle of the view.
    pub center_cursor: bool,
}

impl MovePageUp {
    /// The action with the given setting.
    pub fn new(center_cursor: bool) -> (r: Self)
        ensures
            r.center_cursor == center_cursor,
    {
        MovePageUp { center_cursor }
    }
}

impl Default for MovePageUp {
    /// The action as it is where the key binding sets nothing.
    fn default() -> (r: Self)
        ensures
            !r.center_cursor,
    {
        MovePageUp { center_cursor: false }
    }
}

/// Move the cursor one page down.
#[derive(Clone, Copy, PartialEq, Eq, Structural, Debug)]
pub struct MovePageDown {
    /// Scroll so that the cursor stands in the middle of the view.
    pub center_cursor: bool,
}

impl MovePageDown {
    /// The action with the given setting.
    pub fn new(center_cursor: bool) -> (r: Self)
        ensures
            r.center_cursor == center_cursor,
    {
        MovePageDown { center_cursor }
    }
}

impl Default for MovePageDown {
    /// The action as it is where the key binding sets nothing.
    fn default() -> (r: Self)
        ensures
            !r.center_cursor,
    {
        MovePageDown { center_cursor: false }
    }
}

/// Extend the selection to the end of the line.
#[derive(Clone, Copy, PartialEq, Eq, Structural, Debug)]
pub struct SelectToEndOfLine {
    /// Stop at the end of the display row rather than of the line.
    pub stop_at_soft_wraps: bool,
}

impl SelectToEndOfLine {
    /// The action with the given setting.
    pub fn new(stop_at_soft_wraps: bool) -> (r: Self)
        ensures
            r.stop_at_soft_wraps == stop_at_soft_wraps,
    {
        SelectToEndOfLine { stop_at_soft_wraps }
    }
}

impl Default for SelectToEndOfLine {
    /// The action as it is where the key binding sets nothing.
    fn default() -> (r: Self)
        ensures
            !r.stop_at_soft_wraps,
    {
        SelectToEndOfLine { stop_at_soft_wraps: false }
    }
}

/// Show or hide the code actions.
#[derive(Clone, Copy, PartialEq, Eq, Structural, Debug)]
pub struct ToggleCodeActions {
    /// The request came from the indicator in the gutter.
    pub deployed_from_indicator: bool,
}

impl ToggleCodeActions {
    /// The action with the given setting.
    pub fn new(deployed_from_indicator: bool) -> (r: Self)
        ensures
            r.deployed_from_indicator == deployed_from_indicator,
    {
        ToggleCodeActions { deployed_from_indicator }
    }
}

impl Default for ToggleCodeActions {
    /// The action as it is where the key binding sets nothing.
    fn default() -> (r: Self)
        ensures
            !r.deployed_from_indicator,
    {
        ToggleCodeActions { deployed_from_indicator: false }
    }
}

/// Take a completion.
#[derive(Clone, Copy, PartialEq, Eq, Debug)]
pub struct ConfirmCompletion {
    /// The index of the completion to take; the chosen one where absent.
    pub item_ix: Option<usize>,
}

impl ConfirmCompletion {
    /// The action with the given setting.
    pub fn new(item_ix: Option<usize>) -> (r: Self)
        ensures
            r.item_ix == item_ix,
    {
        ConfirmCompletion { item_ix }
    }
}

impl Default for ConfirmCompletion {
    /// The action as it is where the key binding sets nothing.
    fn default() -> (r: Self)
        ensures
            r.item_ix is None,
    {
        ConfirmCompletion { item_ix: None }
    }
}

/// Run a code action.
#[derive(Clone, Copy, PartialEq, Eq, Debug)]
pub struct ConfirmCodeAction {
    /// The index of the action to run; the chosen one where absent.
    pub item_ix: Option<usize>,
}

impl ConfirmCodeAction {
    /// The action with the given setting.
    pub fn new(item_ix: Option<usize>) -> (r: Self)
        ensures
            r.item_ix == item_ix,
    {
        ConfirmCodeAction { item_ix }
    }
}

impl Default for ConfirmCodeAction {
    /// The action as it is where the key binding sets nothing.
    fn default() -> (r: Self)
        ensures
            r.item_ix is None,
    {
        ConfirmCodeAction { item_ix: None }
    }
}

/// Comment the selected lines in or out.
#[derive(Clone, Copy, PartialEq, Eq, Structural, Debug)]
pub struct ToggleComments {
    /// Move the cursor to the next line afterwards.
    pub advance_downwards: bool,
}

impl ToggleComments {
    /// The action with the given setting.
    pub fn new(advance_downwards: bool) -> (r: Self)
        ensures
            r.advance_downwards == advance_downwards,
    {
        ToggleComments { advance_downwards }
    }
}

impl Default for ToggleComments {
    /// The action as it is where the key binding sets nothing.
    fn default() -> (r: Self)
        ensures
            !r.advance_downwards,
    {
        ToggleComments { advance_downwards: false }
    }
}

/// Fold the region that starts at a row.
#[derive(Clone, Copy, PartialEq, Eq, Structural, Debug)]
pub struct FoldAt {
    /// The row of the buffer at which the region starts.
    pub buffer_row: u32,
}

impl FoldAt {
    /// The action with the given setting.
    pub fn new(buffer_row: u32) -> (r: Self)
        ensures
            r.buffer_row == buffer_row,
    {
        FoldAt { buffer_row }
    }
}

impl Default for FoldAt {
    /// The action as it is where the key binding sets nothing.
    fn default() -> (r: Self)
        ensures
            r.buffer_row == 0,
    {
        FoldAt { buffer_row: 0 }
    }
}

/// Unfold the region that starts at a row.
#[derive(Clone, Copy, PartialEq, Eq, Structural, Debug)]
pub struct UnfoldAt {
    /// The row of the buffer at which the region starts.
    pub buffer_row: u32,
}

impl UnfoldAt {
    /// The action with the given setting.
    pub fn new(buffer_row: u32) -> (r: Self)
        ensures
            r.buffer_row == buffer_row,
    {
        UnfoldAt { buffer_row }
    }
}

impl Default for UnfoldAt {
    /// The action as it is where the key binding sets nothing.
    fn default() -> (r: Self)
        ensures
            r.buffer_row == 0,
    {
        UnfoldAt { buffer_row: 0 }
    }
}

} // verus!
