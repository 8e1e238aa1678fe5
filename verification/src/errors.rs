//! Error taxonomy of the store: validation and policy rejections are
//! distinct, non-fatal outcomes; storage failures carry the underlying
//! engine's message; a missing row is reported, never a crash.

use vstd::prelude::*;

verus! {

/// Everything the store can report to a caller.
#[derive(Debug, Clone)]
pub enum StashError {
    /// Input was empty, below the configured minimum, or above the
    /// configured maximum size.
    EmptyOrTooLarge,
    /// Input was entirely ASCII whitespace.
    AllWhitespace,
    /// A configured sensitive-content pattern matched the textual input.
    Sensitive,
    /// The capture came from an excluded application.
    ExcludedByApp(String),
    /// The insert itself failed.
    Store(String),
    /// Reading candidate rows during de-duplication failed.
    DeduplicationRead(String),
    /// Decoding a candidate row during de-duplication failed.
    DeduplicationDecode(String),
    /// Removing a superseded row during de-duplication failed.
    DeduplicationRemove(String),
    /// Capacity eviction failed.
    Trim(String),
    /// Nothing to delete: the store is empty.
    NoEntriesToDelete,
    /// Removing the most recent row failed.
    DeleteLast(String),
    /// Wiping the store failed.
    Wipe(String),
    /// Reading or decoding rows during a listing failed.
    ListDecode(String),
    /// Reading the input for a decode request failed.
    DecodeRead(String),
    /// The decode input carried no usable identity.
    DecodeExtractId(String),
    /// No row with the requested identity exists.
    DecodeGet(String),
    /// Writing the decoded contents failed.
    DecodeWrite(String),
    /// Deleting rows matched by a query failed.
    QueryDelete(String),
    /// Deleting the row with the given identity failed.
    DeleteEntry(u64, String),
    /// The database could not be brought to the current schema version.
    Migration(String),
}

impl StashError {
    /// A short, stable label for the error category.
    pub fn label(&self) -> &'static str {
        match self {
            StashError::EmptyOrTooLarge => "input is empty or too large",
            StashError::AllWhitespace => "input is all whitespace",
            StashError::Sensitive => "input matches a sensitive-content pattern",
            StashError::ExcludedByApp(_) => "capture excluded by app filter",
            StashError::Store(_) => "failed to store entry",
            StashError::DeduplicationRead(_) => "error reading entry during deduplication",
            StashError::DeduplicationDecode(_) => "error decoding entry during deduplication",
            StashError::DeduplicationRemove(_) => "failed to remove entry during deduplication",
            StashError::Trim(_) => "failed to trim entry",
            StashError::NoEntriesToDelete => "no entries to delete",
            StashError::DeleteLast(_) => "failed to delete last entry",
            StashError::Wipe(_) => "failed to wipe database",
            StashError::ListDecode(_) => "failed to decode entry during list",
            StashError::DecodeRead(_) => "failed to read input for decode",
            StashError::DecodeExtractId(_) => "failed to extract id for decode",
            StashError::DecodeGet(_) => "failed to get entry for decode",
            StashError::DecodeWrite(_) => "failed to write decoded entry",
            StashError::QueryDelete(_) => "failed to delete entry during query delete",
            StashError::DeleteEntry(_, _) => "failed to delete entry",
            StashError::Migration(_) => "failed to migrate database schema",
        }
    }
}

} // verus!
