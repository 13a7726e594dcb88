//! The event handler and shared-buffer manager of an LSM state store.
//!
//! Writers hand immutable memtables, each tagged with an epoch, to a shared
//! in-memory buffer. The handler in [`event_handler`] decides when buffered
//! data is flushed, seals and syncs epochs into uncommitted sorted files,
//! applies committed versions and fans them out to the registered readers.
//! Everything here is a single-threaded state machine: uploads, channels and
//! locks live with the caller, which performs the actions the handler returns.

pub mod buffer_tracker;
pub mod error;
pub mod event;
pub mod event_handler;
pub mod invariants;
pub mod key;
pub mod laws;
pub mod local_version;
pub mod memory;
pub mod memtable;
pub mod opts;
pub mod read_version;
pub mod seq_util;
pub mod shared;
pub mod sorted_file;
pub mod state_store;
pub mod test_utils;
pub mod upload_handle_manager;
pub mod version;
