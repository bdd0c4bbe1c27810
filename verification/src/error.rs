//! The failures a search request can end in, and the text shown for each.

use vstd::prelude::*;

verus! {

/// Why a search request produced no result page.
#[derive(Debug, Clone, Copy, PartialEq, Eq, Structural)]
pub enum FindPastPaperError {
    /// The listener could not be started.
    ServerFailed,
    /// The search tool's output was missing or was not valid text.
    CouldNotReadFile,
    /// The question field was left blank.
    InputFieldIsEmpty,
    /// The question is shorter than the minimum length.
    UnsuitableInputLength,
    /// Some line of the search tool's output is not `path|page|excerpt`.
    MalformedSearchOutput,
}

impl FindPastPaperError {
    /// The user-facing text of each failure.
    pub open spec fn message(self) -> Seq<char> {
        match self {
            FindPastPaperError::ServerFailed => "server failed to start"@,
            FindPastPaperError::CouldNotReadFile => "Could not read file"@,
            FindPastPaperError::InputFieldIsEmpty => "Please enter a question in the input field"@,
            FindPastPaperError::UnsuitableInputLength => "Input must be over 3 characters"@,
            FindPastPaperError::MalformedSearchOutput => "Malformed search output"@,
        }
    }

    /// Renders the failure as the text shown to the user.
    pub fn to_string(&self) -> (s: String)
        ensures
            s@ == self.message(),
    {
        match self {
            FindPastPaperError::ServerFailed => "server failed to start".to_owned(),
            FindPastPaperError::CouldNotReadFile => "Could not read file".to_owned(),
            FindPastPaperError::InputFieldIsEmpty => {
                "Please enter a question in the input field".to_owned()
            },
            FindPastPaperError::UnsuitableInputLength => {
                "Input must be over 3 characters".to_owned()
            },
            FindPastPaperError::MalformedSearchOutput => "Malformed search output".to_owned(),
        }
    }
}

} // verus!
