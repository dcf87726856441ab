//! A plain error value carrying a message.
use vstd::prelude::*;

verus! {

/// An error with a human-readable message.
pub struct JefError {
    message: String,
}

impl View for JefError {
    type V = Seq<char>;

    closed spec fn view(&self) -> Seq<char> {
        self.message@
    }
}

impl JefError {
    /// Boxes the given message as an error value.
    pub fn new(message: &str) -> (r: Box<JefError>)
        ensures
            r@ == message@,
    {
        let error = JefError { message: message.to_owned() };
        Box::new(error)
    }

    /// The message the error was built from.
    pub fn message(&self) -> (r: &String)
        ensures
            r@ == self@,
    {
        &self.message
    }
}

} // verus!
