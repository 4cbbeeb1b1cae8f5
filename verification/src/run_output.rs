//! The value a puzzle part hands back to the runner.

use vstd::prelude::*;

verus! {

/// A puzzle answer: either text or one of several integer widths.
pub enum RunOutput {
    Text(String),
    Unsigned(u64),
    Signed(i64),
    Wide(u128),
    WideSigned(i128),
}

impl RunOutput {
    /// The answer is textual rather than numeric.
    pub fn is_text(&self) -> (r: bool)
        ensures
            r == (self is Text),
    {
        match self {
            RunOutput::Text(_) => true,
            _ => false,
        }
    }
}

} // verus!
