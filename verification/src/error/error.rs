//! An error that carries its description as text.

use vstd::prelude::*;
use vstd::string::StringExecFns;

verus! {

/// An error described by a message.
#[derive(Debug)]
pub struct YeeshError {
    details: String,
}

impl View for YeeshError {
    type V = Seq<char>;

    /// The message.
    closed spec fn view(&self) -> Seq<char> {
        self.details@
    }
}

impl YeeshError {
    pub fn new(msg: &str) -> (error: YeeshError)
        ensures
            error@ == msg@,
    {
        YeeshError { details: String::from_str(msg) }
    }

    /// The message.
    pub fn description(&self) -> (details: &str)
        ensures
            details@ == self@,
    {
        self.details.as_str()
    }

    /// The message, as the error prints.
    pub fn to_string(&self) -> (details: String)
        ensures
            details@ == self@,
    {
        self.details.clone()
    }
}

} // verus!
