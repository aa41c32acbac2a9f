//! Row types for the transition store: servers, users, members, channels,
//! the tracking tables, and the word/transition tables that hold the
//! per-member Markov graph.

use vstd::prelude::*;

verus! {

/// A server (guild) known to the store.
#[derive(Clone, Copy, Debug, PartialEq, Eq, Structural)]
pub struct Server {
    pub server_id: u64,
}

/// A platform user known to the store.
#[derive(Clone, Copy, Debug, PartialEq, Eq, Structural)]
pub struct Users {
    pub user_id: u64,
}

/// A user's membership in one server; `member_id` is the store-assigned
/// handle under which transitions are recorded.
#[derive(Clone, Copy, Debug, PartialEq, Eq, Structural)]
pub struct Member {
    pub member_id: u32,
    pub user_id: u64,
    pub server_id: u64,
}

/// A channel that belongs to a server.
#[derive(Clone, Copy, Debug, PartialEq, Eq, Structural)]
pub struct Channel {
    pub channel_id: u64,
    pub server_id: u64,
}

/// Marks a channel whose messages are ingested.
#[derive(Clone, Copy, Debug, PartialEq, Eq, Structural)]
pub struct TrackedChannel {
    pub channel_id: u64,
}

/// Marks a member whose messages are ingested.
#[derive(Clone, Copy, Debug, PartialEq, Eq, Structural)]
pub struct TrackedMember {
    pub member_id: u32,
}

/// One entry of the global word dictionary: a distinct normalized word and
/// its stable id, assigned on first sight and never changed.
#[derive(Clone, Debug, PartialEq, Eq)]
pub struct Word {
    pub word_id: u32,
    pub word: String,
}

/// One weighted edge of a member's transition graph: `word_id` was observed
/// followed by `next_word_id`, `frequency` many times (at least once).
#[derive(Clone, Copy, Debug, PartialEq, Eq, Structural)]
pub struct MemberWord {
    pub word_id: u32,
    pub member_id: u32,
    pub next_word_id: u32,
    pub frequency: u64,
}

} // verus!
