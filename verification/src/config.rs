//! Plain configuration data for the bot process: how to reach its store,
//! which emoji to use, and the credentials of the feed services.  The
//! values are read from a configuration file by the surrounding process
//! and handed in as they are.

use vstd::prelude::*;

verus! {

/// Fundamental settings: the database, the administrative guild and the
/// embed colour.
pub struct SetupConfig {
    pub postgres_url: String,
    pub admin_guild: u64,
    pub embed_color: (u8, u8, u8),
}

/// Identifiers of the emoji used to tag log messages, one per category.
pub struct EmojiConfig {
    pub ban: u64,
    pub feed: u64,
    pub info: u64,
    pub join: u64,
    pub react: u64,
    pub sticky: u64,
    pub twitch: u64,
    pub warn: u64,
}

/// Credentials for the feed service account.
pub struct RedditConfig {
    pub id: String,
    pub secret: String,
    pub username: String,
    pub password: String,
    pub user_agent: String,
}

} // verus!
