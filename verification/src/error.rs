//! The failures that reading a package document can report.

use vstd::prelude::*;

verus! {

/// Why an operation on a package document failed.
#[derive(Debug)]
pub enum PackumentError {
    /// The bytes are not well-formed JSON, or a value that had to be walked as
    /// an object is of another type. The text is the parser's own message.
    MalformedDocument(String),
    /// A located value does not lie within the buffer it is measured against.
    BufferIdentityMismatch,
}

impl PackumentError {
    /// Whether the error reports a malformed document.
    pub fn is_malformed(&self) -> (r: bool)
        ensures
            r == (self is MalformedDocument),
    {
        match self {
            PackumentError::MalformedDocument(_) => true,
            PackumentError::BufferIdentityMismatch => false,
        }
    }

    /// A line of text for the error, for callers that print it.
    pub fn message(&self) -> (r: String)
        ensures
            self matches PackumentError::MalformedDocument(text) ==> r@ == text@,
            self is BufferIdentityMismatch ==> r@ == "value lies outside the document buffer"@,
    {
        match self {
            PackumentError::MalformedDocument(text) => text.clone(),
            PackumentError::BufferIdentityMismatch => {
                "value lies outside the document buffer".to_owned()
            },
        }
    }
}

} // verus!
