//! The emoji categories the bot's log messages are tagged with.  Resolving
//! a category to a concrete platform emoji happens outside the engine.

use vstd::prelude::*;

verus! {

/// A category of log message, shown as a distinct emoji.
#[derive(Clone, Copy, PartialEq, Eq, Structural, Debug)]
pub enum Emoji {
    Ban,
    Feed,
    Info,
    Join,
    Sticky,
    Twitch,
    Warning,
}

} // verus!
