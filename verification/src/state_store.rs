//! The write path of one reader instance.

use vstd::prelude::*;
use std::sync::Arc;
use crate::error::HummockError;
use crate::memory::MemoryLimiter;
use crate::memtable::{
    batch_map, entries_map, entries_size, sorted_by_key, Entry, HummockValue, ImmutableMemtable,
};
use crate::read_version::{HummockReadVersion, StagingData, VersionUpdate, WriteOptions};
use crate::shared::share;

verus! {

/// The batch `kv_pairs` cannot be accounted under a limiter that has used
/// `usage` of `capacity` bytes: as a memtable it would be larger than
/// `usize` can say, or than what is left of the capacity.
pub open spec fn batch_exceeds(
    kv_pairs: Seq<(Vec<u8>, HummockValue)>,
    usage: u64,
    capacity: u64,
) -> bool {
    exists|entries: Seq<Entry>|
        {
            &&& sorted_by_key(entries)
            &&& entries_map(entries) == batch_map(kv_pairs)
            &&& (entries_size(entries) > usize::MAX || usage + entries_size(entries) > capacity)
        }
}

/// Writes a batch at the epoch and for the table of `write_options`. The
/// batch becomes a memtable, whose bytes are reserved with the limiter and
/// which is staged in the read version of the instance. The memtable is
/// returned: it is what the event handler has to be given next. Where the
/// limiter cannot grant the bytes, nothing changes and the write fails.
pub fn ingest_batch(
    read_version: &mut HummockReadVersion,
    memory_limiter: &mut MemoryLimiter,
    kv_pairs: Vec<(Vec<u8>, HummockValue)>,
    write_options: WriteOptions,
) -> (written: Result<Arc<ImmutableMemtable>, HummockError>)
    requires
        old(read_version)@.wf(),
        old(memory_limiter).wf(),
    ensures
        final(memory_limiter).wf(),
        final(memory_limiter).capacity == old(memory_limiter).capacity,
        final(read_version)@.wf(),
        match written {
            Ok(imm) => {
                &&& imm@ == batch_map(kv_pairs@)
                &&& imm.spec_epoch() == write_options.epoch
                &&& imm.spec_table_id() == write_options.table_id
                &&& imm.spec_size() == entries_size(imm.spec_entries())
                &&& final(memory_limiter).usage == old(memory_limiter).usage + imm.spec_size()
                &&& old(read_version)@.updated(
                    VersionUpdate::Staging(StagingData::ImmMem(imm)),
                    final(read_version)@,
                )
            },
            Err(error) => {
                &&& error == HummockError::OutOfCapacity
                &&& batch_exceeds(kv_pairs@, old(memory_limiter).usage, old(memory_limiter).capacity)
                &&& final(read_version)@ == old(read_version)@
                &&& *final(memory_limiter) == *old(memory_limiter)
            },
        },
{
    let imm = match ImmutableMemtable::build(kv_pairs, write_options.epoch, write_options.table_id) {
        Some(imm) => Arc::new(imm),
        None => {
            return Err(HummockError::OutOfCapacity);
        },
    };
    let entries = imm.entries();
    if !memory_limiter.try_acquire(imm.size() as u64) {
        assert(sorted_by_key(entries@) && entries_map(entries@) == batch_map(kv_pairs@));
        return Err(HummockError::OutOfCapacity);
    }
    read_version.update(VersionUpdate::Staging(StagingData::ImmMem(share(&imm))));
    Ok(imm)
}

} // verus!
