//! A content-addressed object database in the style of a distributed
//! version-control system: framed blob/tree/commit objects keyed by a
//! cryptographic digest, a binary tree-entry codec with the canonical
//! entry ordering, a pack-container decoder with delta resolution, and
//! the pure half of the smart-HTTP transfer negotiation.

use vstd::prelude::*;

pub mod blob;
pub mod clone;
pub mod commands;
pub mod commit;
pub mod digest;
pub mod object;
pub mod packfile;
pub mod store;
pub mod tree;
pub mod util;
pub mod zlib;

verus! {

/// Every failure the library reports, as a distinct recoverable value.
#[derive(Clone, Copy, Debug, PartialEq, Eq, Structural)]
pub enum GitError {
    /// An object id is absent from the store.
    NotFound,
    /// Malformed framing, tree entry, or delta stream.
    Corrupt,
    /// Pack signature mismatch or truncated container.
    InvalidHeader,
    /// A ref-delta's base object could not be resolved.
    MissingBase,
    /// The trailing pack digest does not verify.
    ChecksumMismatch,
    /// The discovery request did not return success.
    UnreachableRemote,
    /// A transfer response is missing an expected part.
    ProtocolError,
    /// A malformed 40-hex identifier was passed to a codec.
    InvalidReference,
}

} // verus!
