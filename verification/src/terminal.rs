//! The size of the terminal window.

use vstd::prelude::*;

verus! {

/// A terminal size in rows and columns.
#[derive(Debug, Clone, Copy, PartialEq, Eq, Structural)]
pub struct TerminalSize {
    pub rows: usize,
    pub cols: usize,
}

impl TerminalSize {
    /// Whether nothing fits in the terminal: no rows or no columns.
    pub fn is_empty(self) -> (r: bool)
        ensures
            r == (self.rows == 0 || self.cols == 0),
    {
        self.rows == 0 || self.cols == 0
    }
}

} // verus!
