//! Error kinds surfaced by the store.

use vstd::prelude::*;

verus! {

/// Why a request to the store failed.
#[derive(Clone, Copy, Debug, PartialEq, Eq, Structural)]
pub enum HummockError {
    /// The memory limiter could not grant the bytes a write asked for.
    OutOfCapacity,
    /// The metadata service could not be reached.
    MetaServiceUnavailable,
    /// The object store failed to read or write a file.
    ObjectStoreIo,
    /// A sorted file could not be decoded.
    SstDecode,
    /// A newer sync request for the same epoch replaced this one.
    SyncOverwritten,
    /// The sync epoch is not above the committed epoch.
    SyncStale,
    /// The upload behind a sync failed.
    SyncTaskFailed,
    /// The shared buffer was cleared while the sync was pending.
    SyncCleared,
    /// A version delta does not follow the version it is applied to.
    VersionDeltaMismatch,
    /// A sorted file of a pinned version carries no key range.
    KeyRangeInvalid,
}

} // verus!
