//! How a stage is configured.

use vstd::prelude::*;

verus! {

/// The largest ring buffer a stage may ask for. A slot, an envelope and a
/// stamp, takes at most 256 bytes, and an allocation at most half of the
/// address space.
pub const MAX_SLOTS: usize = usize::MAX / 512;

/// Seconds that a worker waits at most for room in the next stage of an
/// envelope that was acked.
pub const FORWARD_TIMEOUT_SECS: u64 = 5;

#[derive(Clone, Copy, Debug, PartialEq, Eq, Structural)]
pub enum Delivery {
    /// One consumer handles each envelope (round-robin across consumers).
    PointToPoint,
    /// Every consumer handles every envelope.
    PubSub,
}

#[derive(Clone, Copy, Debug, PartialEq, Eq, Structural)]
pub enum Backpressure {
    /// Producer waits (up to the publish timeout) until there is room.
    Block,
    /// The offer is refused immediately when the stage queue is full.
    Reject,
    /// Discard the envelope being offered.
    DropNewest,
    /// Evict the oldest queued envelope to make room.
    DropOldest,
}

#[derive(Clone, Copy, Debug)]
pub struct ChannelConfig {
    pub capacity: usize,
    pub concurrency: usize,
    pub delivery: Delivery,
    pub backpressure: Backpressure,
    pub max_attempts: u32,
}

/// `n`, or 1 where `n` is 0.
pub open spec fn at_least_one(n: int) -> int {
    if n < 1 {
        1
    } else {
        n
    }
}

impl Default for ChannelConfig {
    fn default() -> (res: Self)
        ensures
            res.capacity == 1024,
            res.concurrency == 1,
            res.delivery == Delivery::PointToPoint,
            res.backpressure == Backpressure::Block,
            res.max_attempts == 1,
    {
        ChannelConfig {
            capacity: 1024,
            concurrency: 1,
            delivery: Delivery::PointToPoint,
            backpressure: Backpressure::Block,
            max_attempts: 1,
        }
    }
}

impl ChannelConfig {
    /// Slots kept free for retries: at most `concurrency` envelopes are in
    /// flight at once, so no more than that can come back.
    pub open spec fn headroom(self) -> int {
        if self.max_attempts > 1 {
            self.concurrency as int
        } else {
            0
        }
    }

    /// Slots of the stage's ring buffer.
    pub open spec fn slots(self) -> int {
        at_least_one(self.capacity + self.headroom())
    }

    /// A stage can be built: its buffer can be allocated, and where the policy
    /// evicts to make room, there is room to be made.
    pub open spec fn valid(self) -> bool {
        &&& self.slots() <= MAX_SLOTS
        &&& self.backpressure == Backpressure::DropOldest ==> self.capacity > 0
    }

    /// Whether a stage can be built.
    pub fn is_valid(&self) -> (res: bool)
        ensures
            res == self.valid(),
    {
        let headroom: usize = if self.max_attempts > 1 {
            self.concurrency
        } else {
            0
        };
        if self.backpressure == Backpressure::DropOldest && self.capacity == 0 {
            return false;
        }
        self.capacity <= MAX_SLOTS && headroom <= MAX_SLOTS - self.capacity
    }

    pub fn capacity(self, n: usize) -> (res: Self)
        ensures
            res == (ChannelConfig { capacity: at_least_one(n as int) as usize, ..self }),
    {
        ChannelConfig { capacity: n.max(1), ..self }
    }

    pub fn concurrency(self, n: usize) -> (res: Self)
        ensures
            res == (ChannelConfig { concurrency: at_least_one(n as int) as usize, ..self }),
    {
        ChannelConfig { concurrency: n.max(1), ..self }
    }

    pub fn delivery(self, d: Delivery) -> (res: Self)
        ensures
            res == (ChannelConfig { delivery: d, ..self }),
    {
        ChannelConfig { delivery: d, ..self }
    }

    pub fn backpressure(self, b: Backpressure) -> (res: Self)
        ensures
            res == (ChannelConfig { backpressure: b, ..self }),
    {
        ChannelConfig { backpressure: b, ..self }
    }

    pub fn max_attempts(self, n: u32) -> (res: Self)
        ensures
            res == (ChannelConfig { max_attempts: at_least_one(n as int) as u32, ..self }),
    {
        ChannelConfig { max_attempts: n.max(1), ..self }
    }
}

} // verus!
