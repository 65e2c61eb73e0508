//! The errors of the library.
use vstd::prelude::*;

use crate::tensor::candle_error_text;

verus! {

/// Why a library operation was refused.
#[derive(Debug)]
pub enum LlmError {
    /// The token stream is too short for a single training example.
    DatasetTooSmall,
    /// The prompt has no character of the vocabulary.
    EmptyPrompt,
    /// The tensor library refused an operation.
    Tensor(candle_core::Error),
}

impl LlmError {
    /// The message shown for this error; a tensor-library error shows its own.
    pub fn message(&self) -> (s: String)
        ensures
            self is DatasetTooSmall ==> s@ == "Dataset too small! Add more text."@,
            self is EmptyPrompt ==> s@ == "Empty prompt or unrecognized characters"@,
    {
        match self {
            LlmError::DatasetTooSmall => "Dataset too small! Add more text.".to_owned(),
            LlmError::EmptyPrompt => "Empty prompt or unrecognized characters".to_owned(),
            LlmError::Tensor(e) => candle_error_text(e),
        }
    }
}

} // verus!
