use vstd::prelude::*;

verus! {

/// The toolkit's error type.  Variants that in practice wrap another
/// library's error are represented by the message they would carry.
#[derive(Debug)]
pub enum Error {
    InvalidInput(String),
    MissingExpect(String),
    MissingInput,
    Runner(String),
    SearchUpFailed(String),
    Skipped,
    Unsolved,
    WrongAnswer(String, String),
    YearExists(usize),
    MD5StringOverrun,
}

} // verus!
