//! Verified core of a chat moderation bot.
//!
//! The centrepiece is the anti-spam engine: a per-guild, per-user clustering
//! system that groups recent messages by content similarity, scores the
//! clusters against escalating thresholds, and decides on punishment with a
//! persisted re-offense memory.  All state transitions are verified; the
//! surrounding process (chat platform, database, timers) drives them from
//! outside.

pub mod bucket;
pub mod clock;
pub mod config;
pub mod dump;
pub mod emoji;
pub mod error;
pub mod manager;
pub mod pool;
pub mod preprocess;
pub mod punished;
pub mod similarity;
pub mod spam_config;
pub mod streams;
pub mod text;
