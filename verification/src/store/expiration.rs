//! Whether blocks that were not used for a long time are evicted, and after what time.

use vstd::prelude::*;

verus! {

/// The setting of block expiration of a store. Expiration is off until a
/// time is set, and once it is on, it stays on.
#[derive(Clone, Copy, Debug, PartialEq, Eq, Structural)]
pub struct BlockExpiration {
    /// The time in milliseconds after which an unused block is evicted,
    /// if expiration is on.
    pub time: Option<u64>,
}

impl BlockExpiration {
    /// Expiration is off.
    pub fn new() -> (e: BlockExpiration)
        ensures
            e.time.is_none(),
    {
        BlockExpiration { time: None }
    }

    /// Sets the time after which unused blocks are evicted. Without a time
    /// nothing changes: expiration that is on keeps its time, and
    /// expiration that is off stays off. Returns whether expiration was
    /// switched on by this call, so that the caller starts tracking blocks.
    pub fn set_block_expiration(&mut self, expiration_time: Option<u64>) -> (started: bool)
        ensures
            final(self).time == (if expiration_time.is_some() {
                expiration_time
            } else {
                old(self).time
            }),
            started == (old(self).time.is_none() && expiration_time.is_some()),
    {
        match expiration_time {
            Some(time) => {
                let started = self.time.is_none();
                self.time = Some(time);
                started
            },
            None => false,
        }
    }

    /// The time after which unused blocks are evicted, if expiration is on.
    pub fn block_expiration(&self) -> (r: Option<u64>)
        ensures
            r == self.time,
    {
        self.time
    }
}

} // verus!
