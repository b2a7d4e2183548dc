//! Errors of the trie and of proof checking.

use vstd::prelude::*;

verus! {

/// Failures of trie and proof operations.
#[derive(Clone, Copy, Debug, PartialEq, Eq)]
pub enum TrieError {
    /// A key or a value exceeds the encodable size.
    EncodingError,
    /// Verification needs a node that the proof does not hold.
    IncompleteProofError,
    /// A child trie identifier would share the parent's keyspace.
    KeyspaceCollisionError,
    /// Bytes that do not decode as a node.
    CorruptNodeError,
}

} // verus!
