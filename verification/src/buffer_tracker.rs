//! Tracks how full the shared buffer is and whether more of it should be
//! flushed.

use vstd::prelude::*;
use crate::memory::MemoryLimiter;

verus! {

/// The storage options the handler reads.
pub struct StorageConfig {
    /// Total memory budget of the shared buffer, in MiB.
    pub shared_buffer_capacity_mb: u32,
    /// How many file ids are fetched from the remote allocator at once.
    pub sstable_id_remote_fetch_number: u32,
    /// Whether the write-conflict detector is consulted.
    pub write_conflict_detection_enabled: bool,
}

impl Default for StorageConfig {
    fn default() -> (config: StorageConfig)
        ensures
            config.shared_buffer_capacity_mb == 1024,
            config.sstable_id_remote_fetch_number == 10,
            !config.write_conflict_detection_enabled,
    {
        StorageConfig {
            shared_buffer_capacity_mb: 1024,
            sstable_id_remote_fetch_number: 10,
            write_conflict_detection_enabled: false,
        }
    }
}

/// Bytes in one MiB.
pub const MIB: u64 = 1048576;

/// The byte budget that `capacity_mb` MiB stand for, capped at what `usize`
/// can hold.
pub open spec fn capacity_bytes(capacity_mb: u32) -> int {
    if capacity_mb * MIB <= usize::MAX {
        capacity_mb * MIB
    } else {
        usize::MAX as int
    }
}

/// Four fifths of the capacity: above this much unflushed data, more is
/// flushed.
pub open spec fn flush_threshold_of(capacity: int) -> int {
    capacity * 4 / 5
}

pub struct BufferTracker {
    pub flush_threshold: usize,
    pub global_buffer: MemoryLimiter,
    pub global_upload_task_size: usize,
}

impl BufferTracker {
    /// The limiter is consistent, its capacity fits `usize`, and the bytes in
    /// flight are part of what the limiter accounts.
    pub open spec fn wf(&self) -> bool {
        &&& self.global_buffer.wf()
        &&& self.global_buffer.capacity <= usize::MAX
        &&& self.global_upload_task_size <= self.global_buffer.usage
    }

    /// Whether the buffered bytes that no upload carries yet exceed the flush
    /// threshold.
    pub open spec fn spec_need_more_flush(&self) -> bool {
        self.global_buffer.usage - self.global_upload_task_size > self.flush_threshold
    }

    pub fn from_storage_config(config: &StorageConfig) -> (tracker: BufferTracker)
        ensures
            tracker.wf(),
            tracker.global_buffer.capacity == capacity_bytes(config.shared_buffer_capacity_mb),
            tracker.global_buffer.usage == 0,
            tracker.global_upload_task_size == 0,
            tracker.flush_threshold == flush_threshold_of(
                capacity_bytes(config.shared_buffer_capacity_mb),
            ),
    {
        let wanted: u64 = config.shared_buffer_capacity_mb as u64 * MIB;
        let capacity: u64 = if wanted <= usize::MAX as u64 {
            wanted
        } else {
            usize::MAX as u64
        };
        let flush_threshold: u64 = (capacity / 5) * 4 + (capacity % 5) * 4 / 5;
        assert(flush_threshold == capacity * 4 / 5);
        BufferTracker {
            flush_threshold: flush_threshold as usize,
            global_buffer: MemoryLimiter::new(capacity),
            global_upload_task_size: 0,
        }
    }

    /// The bytes that the limiter accounts, as far as `usize` can say.
    pub fn get_buffer_size(&self) -> (size: usize)
        ensures
            size == if self.global_buffer.usage <= usize::MAX {
                self.global_buffer.usage as int
            } else {
                usize::MAX as int
            },
            self.wf() ==> size == self.global_buffer.usage,
    {
        let usage = self.global_buffer.get_memory_usage();
        if usage <= usize::MAX as u64 {
            usage as usize
        } else {
            usize::MAX
        }
    }

    pub fn get_memory_limiter(&self) -> (limiter: &MemoryLimiter)
        ensures
            *limiter == self.global_buffer,
    {
        &self.global_buffer
    }

    pub fn global_upload_task_size(&self) -> (size: usize)
        ensures
            size == self.global_upload_task_size,
    {
        self.global_upload_task_size
    }

    /// Return true when the buffer size minus current upload task size is
    /// still greater than the flush threshold.
    pub fn need_more_flush(&self) -> (more: bool)
        ensures
            more == self.spec_need_more_flush(),
    {
        self.global_buffer.get_memory_usage() as u128 > self.flush_threshold as u128
            + self.global_upload_task_size as u128
    }
}

} // verus!
