//! The error of the library: a message for the user.
use crate::text;
use vstd::prelude::*;

verus! {

/// Why a request could not be served.
#[derive(Debug)]
pub enum LauncherError {
    Message(String),
}

impl View for LauncherError {
    type V = Seq<char>;

    /// The text of the message.
    open spec fn view(&self) -> Seq<char> {
        match self {
            LauncherError::Message(message) => message@,
        }
    }
}

/// The model of a result: the model of the value, or the text of the error.
pub open spec fn outcome<T: View>(r: Result<T, LauncherError>) -> Result<T::V, Seq<char>> {
    match r {
        Ok(value) => Ok(value@),
        Err(err) => Err(err@),
    }
}

impl LauncherError {
    /// The error with the given message.
    pub fn new(message: &str) -> (r: Self)
        ensures
            r@ == message@,
    {
        LauncherError::Message(message.to_string())
    }

    /// The error whose message is `head` followed by `tail`.
    pub fn about(head: &str, tail: &str) -> (r: Self)
        ensures
            r@ == head@ + tail@,
    {
        LauncherError::Message(text::concat(head, tail))
    }

    /// The text of the message.
    pub fn message(&self) -> (r: String)
        ensures
            r@ == self@,
    {
        match self {
            LauncherError::Message(message) => message.clone(),
        }
    }
}

} // verus!
