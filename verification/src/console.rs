//! The kernel output console.

use vstd::prelude::*;

verus! {

/// The system output console: the current cursor position and the number
/// of lines written so far.
pub struct Console {
    /// The number of lines tracked in the console view.
    pub line_number: usize,
    /// Cursor column.
    pub pos_x: usize,
    /// Cursor row.
    pub pos_y: usize,
}

} // verus!
