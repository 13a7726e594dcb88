//! A non-blocking quota over a fixed byte budget.

use vstd::prelude::*;

verus! {

/// Accounts the bytes held by buffered memtables against a fixed capacity.
pub struct MemoryLimiter {
    pub capacity: u64,
    pub usage: u64,
}

impl MemoryLimiter {
    /// Usage never exceeds the capacity.
    pub open spec fn wf(&self) -> bool {
        self.usage <= self.capacity
    }

    pub fn new(capacity: u64) -> (limiter: MemoryLimiter)
        ensures
            limiter.wf(),
            limiter.capacity == capacity,
            limiter.usage == 0,
    {
        MemoryLimiter { capacity, usage: 0 }
    }

    pub fn get_memory_usage(&self) -> (usage: u64)
        ensures
            usage == self.usage,
    {
        self.usage
    }

    pub fn get_capacity(&self) -> (capacity: u64)
        ensures
            capacity == self.capacity,
    {
        self.capacity
    }

    /// Reserves `bytes` if they still fit under the capacity, and says whether
    /// it did. Nothing changes when the reservation is refused.
    pub fn try_acquire(&mut self, bytes: u64) -> (granted: bool)
        requires
            old(self).wf(),
        ensures
            final(self).wf(),
            final(self).capacity == old(self).capacity,
            granted == (old(self).usage + bytes <= old(self).capacity),
            granted ==> final(self).usage == old(self).usage + bytes,
            !granted ==> final(self).usage == old(self).usage,
    {
        if bytes <= self.capacity - self.usage {
            self.usage = self.usage + bytes;
            true
        } else {
            false
        }
    }

    /// Gives back `bytes` that were reserved before.
    pub fn release(&mut self, bytes: u64)
        requires
            old(self).wf(),
            bytes <= old(self).usage,
        ensures
            final(self).wf(),
            final(self).capacity == old(self).capacity,
            final(self).usage == old(self).usage - bytes,
    {
        self.usage = self.usage - bytes;
    }
}

} // verus!
