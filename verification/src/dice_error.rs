//! The error type shared by every stage of the pipeline.

use vstd::prelude::*;

verus! {

/// An error from tokenizing, parsing or evaluating a dice-algebra
/// expression, carrying a single human-readable message.
#[derive(Debug)]
pub struct DiceError {
    pub message: String,
}

impl DiceError {
    /// Builds an error whose message is exactly the given text.
    pub fn new(message: &str) -> (e: DiceError)
        ensures
            e.message@ == message@,
    {
        DiceError { message: message.to_owned() }
    }
}

} // verus!
