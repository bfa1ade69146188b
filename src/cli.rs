//! The settings of a dump: the input file and the row width.

use crate::layout::valid_columns;
use vstd::prelude::*;

verus! {

/// What a dump is asked to do: which file to read and how many bytes to
/// show per row.
pub struct CommandLine {
    pub input: String,
    pub columns: usize,
}

impl CommandLine {
    /// Whether the row width is one of 8, 16, 32 and 64.
    pub fn valid(&self) -> (r: bool)
        ensures
            r == valid_columns(self.columns as nat),
    {
        self.columns == 8 || self.columns == 16 || self.columns == 32 || self.columns == 64
    }
}

} // verus!
