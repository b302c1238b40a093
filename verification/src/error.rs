//! The error of this crate: a message for the operator.

use vstd::prelude::*;
use vstd::string::*;

verus! {

/// An error that is reported to the operator as text.
#[derive(Debug, PartialEq, Eq)]
pub struct StrErr(pub String);

impl View for StrErr {
    type V = Seq<char>;

    open spec fn view(&self) -> Seq<char> {
        self.0@
    }
}

impl StrErr {
    /// An error with the given message.
    pub fn new(message: &str) -> (err: StrErr)
        ensures
            err@ == message@,
    {
        StrErr(String::from_str(message))
    }

    /// The message of the error.
    pub fn message(&self) -> (message: &String)
        ensures
            message@ == self@,
    {
        &self.0
    }
}

/// The message for a budget of parallel requests that admits no request.
pub const NO_REQUESTS_ALLOWED: &'static str = "the upper limit of parallel requests must be at least 1";

} // verus!
