//! The error that a user sees.

use vstd::prelude::*;

verus! {

/// A failure with the text that a user reads.
#[derive(Debug, Clone, PartialEq, Eq)]
pub struct BridgeError(pub String);

impl View for BridgeError {
    type V = Seq<char>;

    open spec fn view(&self) -> Seq<char> {
        self.0@
    }
}

impl BridgeError {
    /// A failure with a text.
    pub fn new(text: &str) -> (error: BridgeError)
        ensures
            error@ == text@,
    {
        BridgeError(text.to_owned())
    }

    /// The text that a user reads.
    pub fn to_string(&self) -> (text: String)
        ensures
            text@ == self@,
    {
        self.0.clone()
    }
}

}
