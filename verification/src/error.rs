use vstd::prelude::*;

verus! {

/// Why a builder or transform rejected its input.
#[derive(Clone, Copy, Debug, PartialEq, Eq, Structural)]
pub enum PlotError {
    /// Two parallel input sequences differ in length.
    LengthMismatch,
    /// A label is neither the target code nor the decoy code.
    InvalidLabel,
    /// A transform that needs at least one element received none.
    EmptySample,
}

impl PlotError {
    /// The text of each message, by variant.
    pub open spec fn message_text(self) -> Seq<char> {
        match self {
            PlotError::LengthMismatch => "parallel input sequences must have the same length"@,
            PlotError::InvalidLabel => "labels must be 1 for targets and -1 for decoys"@,
            PlotError::EmptySample => "a sample with at least one element is required"@,
        }
    }

    /// A human-readable description of the error.
    pub fn message(&self) -> (s: &'static str)
        ensures
            s@ == self.message_text(),
    {
        match self {
            PlotError::LengthMismatch => "parallel input sequences must have the same length",
            PlotError::InvalidLabel => "labels must be 1 for targets and -1 for decoys",
            PlotError::EmptySample => "a sample with at least one element is required",
        }
    }
}

} // verus!
