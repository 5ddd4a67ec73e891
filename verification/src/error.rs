//! What can go wrong while a request is sent.
use vstd::prelude::*;

verus! {

/// Why a request was not sent whole.
#[derive(Debug, Clone, Copy, PartialEq, Eq, Structural)]
pub enum SendError {
    /// A header of the request has a value that spans lines.
    MultilineHeader,
    /// The body of the request ended before the announced length.
    BodyTooShort,
}

impl SendError {
    /// A message for people.
    pub fn to_text(&self) -> (r: String)
        ensures
            r@ == match *self {
                SendError::MultilineHeader => "multiline headers are not allowed"@,
                SendError::BodyTooShort => "body too short"@,
            },
    {
        let text: &str = match self {
            SendError::MultilineHeader => "multiline headers are not allowed",
            SendError::BodyTooShort => "body too short",
        };
        text.to_owned()
    }
}

} // verus!
