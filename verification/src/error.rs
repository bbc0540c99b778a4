use vstd::prelude::*;

verus! {

/// The closed set of ways in which an operation on the queue can fail.
#[derive(Debug, PartialEq, Eq, Clone, Copy, Structural)]
#[non_exhaustive]
pub enum Error {
    /// A node that is still linked into the forest was asked for its payload.
    ImpossibleRelease,
    /// A value or a child was not found where it was looked for.
    InvalidIndex,
    /// The node counter cannot represent one more element.
    ReachedCapacity,
    /// The computation of the rank bound left the representable range.
    Numerical,
    /// The operation needs at least one element and there is none.
    Empty,
    /// The new priority is not strictly lower than the current one.
    CannotIncreasePriority,
}

impl Error {
    /// The text that describes this error.
    pub open spec fn text(self) -> Seq<char> {
        match self {
            Error::ImpossibleRelease => "cannot release node due to outstanding reference"@,
            Error::InvalidIndex => "requested value not found in queue"@,
            Error::ReachedCapacity => "cannot account for additional nodes"@,
            Error::Empty => "cannot perform operation on empty queue"@,
            Error::Numerical => "failed numerical operation"@,
            Error::CannotIncreasePriority => "cannot change priority to a higher value"@,
        }
    }

    /// Renders the error as a human-readable sentence.
    pub fn message(&self) -> (s: String)
        ensures
            s@ == self.text(),
    {
        match self {
            Error::ImpossibleRelease => "cannot release node due to outstanding reference".to_owned(),
            Error::InvalidIndex => "requested value not found in queue".to_owned(),
            Error::ReachedCapacity => "cannot account for additional nodes".to_owned(),
            Error::Empty => "cannot perform operation on empty queue".to_owned(),
            Error::Numerical => "failed numerical operation".to_owned(),
            Error::CannotIncreasePriority => "cannot change priority to a higher value".to_owned(),
        }
    }
}

} // verus!
