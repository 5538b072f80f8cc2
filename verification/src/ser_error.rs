//! The error of writing a value as XML.

use vstd::prelude::*;

verus! {

/// An error met while writing a value as XML, holding its message.
#[derive(Debug)]
pub struct CustomSerError(String);

impl View for CustomSerError {
    type V = Seq<char>;

    closed spec fn view(&self) -> Seq<char> {
        self.0@
    }
}

impl CustomSerError {
    /// An error with the given message.
    pub fn new(message: &str) -> (r: Self)
        ensures
            r@ == message@,
    {
        CustomSerError(crate::text::string_from_chars(crate::text::str_chars(message).as_slice()))
    }

    /// The message of the error.
    pub fn message(&self) -> (r: String)
        ensures
            r@ == self@,
    {
        crate::text::string_from_chars(crate::text::str_chars(self.0.as_str()).as_slice())
    }
}

} // verus!
