//! What makes a run fail.

use vstd::prelude::*;
use vstd::string::*;

verus! {

/// A failure of a run. None is recovered from.
#[derive(PartialEq, Debug)]
pub enum Error {
    /// The store has no text for the note of this name.
    UnresolvableReference(String),
    /// The header of a note is not a mapping from names to values.
    MalformedHeader,
    /// The `title` field of the note of this name holds something other
    /// than text.
    MalformedTitle(String),
    /// The note of this name lies on a cycle of transclusions.
    TransclusionCycle(String),
}

/// The mathematical value of an [`Error`].
pub ghost enum ErrorView {
    UnresolvableReference(Seq<char>),
    MalformedHeader,
    MalformedTitle(Seq<char>),
    TransclusionCycle(Seq<char>),
}

impl View for Error {
    type V = ErrorView;

    open spec fn view(&self) -> ErrorView {
        match self {
            Error::UnresolvableReference(name) => ErrorView::UnresolvableReference(name@),
            Error::MalformedHeader => ErrorView::MalformedHeader,
            Error::MalformedTitle(name) => ErrorView::MalformedTitle(name@),
            Error::TransclusionCycle(name) => ErrorView::TransclusionCycle(name@),
        }
    }
}

/// The mathematical value of a text or the failure to produce it.
pub open spec fn text_result(outcome: Result<String, Error>) -> Result<Seq<char>, ErrorView> {
    match outcome {
        Ok(text) => Ok(text@),
        Err(error) => Err(error@),
    }
}

/// The diagnostic for a failure.
pub open spec fn message_of(error: ErrorView) -> Seq<char> {
    match error {
        ErrorView::UnresolvableReference(name) => "Attempted to read the note "@ + name,
        ErrorView::MalformedHeader => "Expected the header to be a mapping"@,
        ErrorView::MalformedTitle(name) => "Expected the title value of "@ + name
            + " to be a string"@,
        ErrorView::TransclusionCycle(name) => "Cyclic transclusion detected: "@ + name,
    }
}

impl Error {
    /// The diagnostic for this failure.
    pub fn to_string(&self) -> (message: String)
        ensures
            message@ == message_of(self@),
    {
        match self {
            Error::UnresolvableReference(name) => {
                let mut message = String::from_str("Attempted to read the note ");
                message.append(name.as_str());
                message
            },
            Error::MalformedHeader => String::from_str("Expected the header to be a mapping"),
            Error::MalformedTitle(name) => {
                let mut message = String::from_str("Expected the title value of ");
                message.append(name.as_str());
                message.append(" to be a string");
                message
            },
            Error::TransclusionCycle(name) => {
                let mut message = String::from_str("Cyclic transclusion detected: ");
                message.append(name.as_str());
                message
            },
        }
    }
}

} // verus!
