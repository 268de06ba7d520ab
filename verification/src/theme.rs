//! Frame-drawing characters for the renderer's borders.

use vstd::prelude::*;

verus! {

/// The characters a window border is drawn with.
pub struct BorderTheme {
    pub left: char,
    pub right: char,
    pub top: char,
    pub bottom: char,
    pub top_left: char,
    pub top_right: char,
    pub bottom_left: char,
    pub bottom_right: char,
}

impl Default for BorderTheme {
    /// Light box-drawing lines with rounded corners.
    fn default() -> (r: Self)
        ensures
            r.left == '│' && r.right == '│' && r.top == '─' && r.bottom == '─',
            r.top_left == '╭' && r.top_right == '╮',
            r.bottom_left == '╰' && r.bottom_right == '╯',
    {
        Self {
            left: '│',
            right: '│',
            top: '─',
            bottom: '─',
            top_left: '╭',
            top_right: '╮',
            bottom_left: '╰',
            bottom_right: '╯',
        }
    }
}

} // verus!
