//! The error of agent snapshot storage.
use crate::text::string_from;
use vstd::prelude::*;

verus! {

/// A snapshot storage failure; carries the underlying error's message.
#[derive(Debug)]
pub enum AgentSnapshotStorageError {
    Other(String),
}

impl AgentSnapshotStorageError {
    /// The error's message, which does not repeat the underlying error's.
    pub fn message(&self) -> (r: String)
        ensures
            r@ == "snapshot storage error"@,
    {
        string_from("snapshot storage error")
    }
}

} // verus!
