//! The library's error type: a plain message carrier.

use vstd::prelude::*;

verus! {

/// An error with a human-readable description, used wherever an operation of
/// the bot can fail for a reason the caller only reports, never inspects.
#[derive(Debug)]
pub struct BotError {
    msg: String,
}

impl View for BotError {
    type V = Seq<char>;

    closed spec fn view(&self) -> Seq<char> {
        self.msg@
    }
}

impl BotError {
    /// Wraps a description into an error.
    pub fn new(msg: String) -> (r: BotError)
        ensures
            r@ == msg@,
    {
        BotError { msg }
    }

    /// The description this error was created with.
    pub fn message(&self) -> (r: &str)
        ensures
            r@ == self@,
    {
        self.msg.as_str()
    }
}

} // verus!
