//! What can go wrong.

use vstd::prelude::*;

verus! {

/// The errors of the association and its queues.
#[derive(Debug, PartialEq, Eq)]
pub enum Error {
    /// An INIT came in a state in which it is not expected.
    ErrHandleInitState,
    /// An error that only its text describes.
    OtherSctpErr(String),
}

impl Error {
    /// The error is described by this text.
    pub open spec fn says(self, text: Seq<char>) -> bool {
        self matches Error::OtherSctpErr(s) && s@ == text
    }
}

/// The outcome of an operation that can fail.
pub type Result<T> = std::result::Result<T, Error>;

/// An error that the text describes.
pub(crate) fn other_error(text: &str) -> (e: Error)
    ensures
        e.says(text@),
{
    Error::OtherSctpErr(text.to_owned())
}

/// An error is described by a text when it carries that text and no other.
pub proof fn law_error_carries_its_text(s: String, text: Seq<char>)
    ensures
        Error::OtherSctpErr(s).says(text) <==> s@ == text,
        !Error::ErrHandleInitState.says(text),
{
}

} // verus!
