//! The failure taxonomy of the store.

use vstd::prelude::*;

verus! {

/// What can go wrong in the storage layer.
#[derive(Debug, PartialEq, Eq)]
pub enum Error {
    /// A store-level failure (for example, the backing location could not
    /// be acquired). Carries the underlying message.
    Store(String),
    /// Stored bytes do not decode under the expected schema: corruption or
    /// a versioning bug, unrecoverable by the caller.
    Decode,
    /// A caller precondition was violated; rejected before any mutation.
    Precondition,
    /// Two distinct node contents produced the same content hash; the
    /// commit is abandoned rather than overwriting a live node.
    HashCollision,
}

} // verus!
