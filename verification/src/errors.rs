//! Result and error types for the store and the sentence sampler.

use vstd::prelude::*;

verus! {

/// Outcome of an insertion into a tracking table.
#[derive(Clone, Copy, Debug, PartialEq, Eq, Structural)]
pub enum InsertResult {
    Added,
    AlreadyPresent,
}

/// Outcome of a removal from a tracking table.
#[derive(Clone, Copy, Debug, PartialEq, Eq, Structural)]
pub enum RemoveResult {
    Removed,
    NotPresent,
}

/// A failure of the store itself: a referenced row is missing, or a counter
/// of the store has no room left.
#[derive(Clone, Copy, Debug, PartialEq, Eq, Structural)]
pub enum StorageError {
    /// An operation referenced a word id with no dictionary row.
    MissingWord,
    /// The word-id counter is exhausted.
    WordIdSpaceExhausted,
    /// The member-id counter is exhausted.
    MemberIdSpaceExhausted,
    /// Incrementing a frequency would overflow the store's total weight.
    FrequencyOverflow,
}

/// Failure of a sentence-generation request.
#[derive(Clone, Copy, Debug, PartialEq, Eq, Structural)]
pub enum MarkovFetchResultError {
    /// The member's graph could not supply a sentence of the requested
    /// length: the request asked for the first count of words and the walk
    /// obtained only the second.
    NotEnoughWords(u8, u32),
    /// The store failed.
    Storage(StorageError),
}

/// Failure of an ingestion request.
#[derive(Clone, Copy, Debug, PartialEq, Eq, Structural)]
pub enum AddMemberWordsError {
    /// An internal pairing step received vectors whose lengths cannot be
    /// chained; indicates a caller-side programming error.
    ImpossibleVectorSizes(usize, usize),
    /// The store failed.
    Storage(StorageError),
}

/// A member lookup failed; carries the reply text for the caller.
#[derive(Clone, Debug, PartialEq, Eq)]
pub enum MemberNotFoundError {
    MemberNotFound(String),
}

impl MemberNotFoundError {
    /// The reply text carried by this error.
    pub open spec fn text(self) -> Seq<char> {
        match self {
            MemberNotFoundError::MemberNotFound(s) => s@,
        }
    }

    /// Returns the reply text.
    pub fn message(&self) -> (r: &String)
        ensures
            r@ == self.text(),
    {
        match self {
            MemberNotFoundError::MemberNotFound(s) => s,
        }
    }
}

/// A channel lookup failed; carries the reply text for the caller.
#[derive(Clone, Debug, PartialEq, Eq)]
pub enum ChannelNotFoundError {
    ChannelNotFound(String),
}

impl ChannelNotFoundError {
    /// The reply text carried by this error.
    pub open spec fn text(self) -> Seq<char> {
        match self {
            ChannelNotFoundError::ChannelNotFound(s) => s@,
        }
    }

    /// Returns the reply text.
    pub fn message(&self) -> (r: &String)
        ensures
            r@ == self.text(),
    {
        match self {
            ChannelNotFoundError::ChannelNotFound(s) => s,
        }
    }
}

} // verus!
