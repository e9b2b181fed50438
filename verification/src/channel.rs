//! A stage: a bounded queue, the consumers that handle what comes out of it,
//! and the counts kept of it.

use crate::config::{Backpressure, ChannelConfig, Delivery};
use crate::envelope::{Envelope, EnvelopeView};
use crate::name_map::NameMap;
use crate::queue::{queue_len, queue_new, queue_pop, queue_push, queued, slots};
use crossbeam_queue::ArrayQueue;
use std::sync::Arc;
use vstd::prelude::*;

verus! {

/// Per-stage metrics. The counters wrap around, as atomic counters do.
#[derive(Debug, Default, Clone)]
pub struct Stats {
    pub depth: usize,
    pub enqueued: u64,
    pub delivered: u64,
    pub nacked: u64,
    pub dropped: u64,
    pub dead_lettered: u64,
}

/// What became of an envelope offered to a stage.
pub enum Offer {
    /// It is queued.
    Accepted,
    /// It was discarded, and counted as dropped.
    Refused,
    /// There is no room yet. The producer is counted among those that wait,
    /// and keeps the envelope.
    Full(Envelope),
}

/// The same, without the envelope.
pub enum Outcome {
    Accepted,
    Refused,
    Full,
}

impl Offer {
    /// The offer of `env` came to `outcome`.
    pub open spec fn is(self, outcome: Outcome, env: EnvelopeView) -> bool {
        match self {
            Offer::Accepted => outcome is Accepted,
            Offer::Refused => outcome is Refused,
            Offer::Full(back) => outcome is Full && back@ == env,
        }
    }
}

pub struct Channel<C> {
    name: String,
    cfg: ChannelConfig,
    queue: ArrayQueue<Envelope>,
    consumers: Vec<Arc<C>>,
    rr: usize,
    permits: usize,
    waiters: usize,
    enqueued: u64,
    delivered: u64,
    nacked: u64,
    dropped: u64,
    dead_lettered: u64,
    attempts: NameMap<u32>,
    in_flight: Ghost<nat>,
    refused: Ghost<nat>,
    woken: Ghost<nat>,
}

#[verifier::ext_equal]
#[verifier::reject_recursive_types(C)]
pub struct ChannelView<C> {
    pub name: Seq<char>,
    pub cfg: ChannelConfig,
    /// The envelopes waiting to be handled, the oldest first.
    pub queue: Seq<EnvelopeView>,
    pub consumers: Seq<Arc<C>>,
    /// Point-to-point deliveries made so far: the turn of the round-robin.
    pub rr: usize,
    /// How many more workers may drain the stage at once.
    pub permits: usize,
    /// Producers that wait for room.
    pub waiters: usize,
    pub enqueued: u64,
    pub delivered: u64,
    pub nacked: u64,
    pub dropped: u64,
    pub dead_lettered: u64,
    /// Delivery attempts made for the envelopes that are being retried.
    pub attempts: Map<Seq<char>, u32>,
    /// Envelopes taken from the queue whose handling has not ended.
    pub in_flight: nat,
    /// Envelopes that were offered and not let in.
    pub refused: nat,
    /// Producers that were woken and have not tried again yet.
    pub woken: nat,
}

/// A counter after `k` more events.
pub open spec fn counted(n: u64, k: nat) -> u64 {
    ((n + k) % 0x1_0000_0000_0000_0000) as u64
}

/// `n + 1`, or 0 after the largest `usize`.
pub open spec fn next_usize(n: usize) -> usize {
    if n == usize::MAX {
        0
    } else {
        (n + 1) as usize
    }
}

/// `n + 1`, or 0 after the largest `u32`.
pub open spec fn next_u32(n: u32) -> u32 {
    if n == u32::MAX {
        0
    } else {
        (n + 1) as u32
    }
}

impl<C> ChannelView<C> {
    /// A stage nothing has happened to.
    pub open spec fn fresh(name: Seq<char>, cfg: ChannelConfig) -> ChannelView<C> {
        ChannelView {
            name,
            cfg,
            queue: Seq::empty(),
            consumers: Seq::empty(),
            rr: 0,
            permits: cfg.concurrency,
            waiters: 0,
            enqueued: 0,
            delivered: 0,
            nacked: 0,
            dropped: 0,
            dead_lettered: 0,
            attempts: Map::empty(),
            in_flight: 0,
            refused: 0,
            woken: 0,
        }
    }

    /// What became of the envelopes that were let in, less how many they were.
    pub open spec fn balance(self) -> int {
        self.delivered + self.dead_lettered + self.dropped - self.refused + self.queue.len()
            + self.in_flight - self.enqueued
    }

    /// Every envelope that was let in is delivered, dead-lettered, dropped,
    /// queued or in flight, and counted once.
    pub open spec fn accounted(self) -> bool {
        self.balance() % 0x1_0000_0000_0000_0000 == 0
    }

    /// The queue is within capacity, but for what came back for a retry, and
    /// there is a free slot for each envelope that still may.
    pub open spec fn roomy(self) -> bool {
        if self.cfg.max_attempts > 1 {
            self.queue.len() + self.in_flight <= self.cfg.capacity + self.cfg.concurrency
        } else {
            self.queue.len() <= self.cfg.capacity
        }
    }

    /// Where producers wait, one of them has been woken for each envelope that
    /// there is room for, as far as they go.
    pub open spec fn wakeful(self) -> bool {
        self.cfg.backpressure == Backpressure::Block ==> {
            ||| self.waiters <= self.woken
            ||| self.cfg.capacity - self.queue.len() <= self.woken
        }
    }

    pub open spec fn wf(self) -> bool {
        &&& self.cfg.valid()
        &&& self.permits <= self.cfg.concurrency
        &&& self.in_flight <= self.cfg.concurrency
        &&& self.roomy()
        &&& self.accounted()
        &&& self.wakeful()
    }

    pub open spec fn has_room(self) -> bool {
        self.queue.len() < self.cfg.capacity
    }

    /// `env` is let in.
    pub open spec fn admitted(self, env: EnvelopeView) -> ChannelView<C> {
        ChannelView { queue: self.queue.push(env), enqueued: counted(self.enqueued, 1), ..self }
    }

    /// An envelope on offer is discarded.
    pub open spec fn refusing(self) -> ChannelView<C> {
        ChannelView {
            dropped: counted(self.dropped, 1),
            refused: self.refused + 1,
            ..self
        }
    }

    /// The `n` oldest envelopes are discarded.
    pub open spec fn evicted(self, n: nat) -> ChannelView<C> {
        ChannelView {
            queue: self.queue.skip(n as int),
            dropped: counted(self.dropped, n),
            ..self
        }
    }

    /// A producer begins to wait for room.
    pub open spec fn parking(self) -> ChannelView<C> {
        ChannelView { waiters: next_usize(self.waiters), ..self }
    }

    /// A producer no longer waits for room.
    pub open spec fn unparked(self) -> ChannelView<C> {
        ChannelView {
            waiters: (self.waiters - 1) as usize,
            woken: if self.woken > 0 {
                (self.woken - 1) as nat
            } else {
                0
            },
            ..self
        }
    }

    /// A producer that waited for room gives up: its envelope is discarded,
    /// and if it was woken, another one is in its place.
    pub open spec fn withdrawn(self) -> ChannelView<C> {
        ChannelView { waiters: (self.waiters - 1) as usize, ..self.refusing() }
    }

    /// What becomes of an envelope on offer: it is let in where there is
    /// room, or where room is made for it; `expired` says that its producer
    /// may not wait any longer.
    pub open spec fn offer_outcome(self, expired: bool) -> Outcome {
        if self.has_room() {
            Outcome::Accepted
        } else {
            match self.cfg.backpressure {
                Backpressure::Reject => Outcome::Refused,
                Backpressure::DropNewest => Outcome::Refused,
                Backpressure::DropOldest => Outcome::Accepted,
                Backpressure::Block => if expired {
                    Outcome::Refused
                } else {
                    Outcome::Full
                },
            }
        }
    }

    /// How many of the oldest envelopes make room for one on offer.
    pub open spec fn evicting(self, expired: bool) -> int {
        if self.offer_outcome(expired) is Accepted && !self.has_room() {
            self.queue.len() - self.cfg.capacity + 1
        } else {
            0
        }
    }

    /// The stage after `env` was offered to it.
    pub open spec fn offered(self, env: EnvelopeView, expired: bool) -> ChannelView<C> {
        match self.offer_outcome(expired) {
            Outcome::Accepted => if self.has_room() {
                self.admitted(env)
            } else {
                self.evicted((self.queue.len() - self.cfg.capacity + 1) as nat).admitted(env)
            },
            Outcome::Refused => self.refusing(),
            Outcome::Full => self.parking(),
        }
    }

    /// The oldest envelope is taken from the queue to be handled.
    pub open spec fn polled(self) -> ChannelView<C> {
        ChannelView {
            queue: self.queue.skip(1),
            in_flight: self.in_flight + 1,
            woken: if self.waiters > 0 {
                self.woken + 1
            } else {
                self.woken
            },
            ..self
        }
    }

    /// The queue is emptied, and what was in it counted as dropped.
    pub open spec fn swept(self) -> ChannelView<C> {
        ChannelView {
            woken: if self.waiters > 0 {
                self.woken + self.queue.len()
            } else {
                self.woken
            },
            ..self.evicted(self.queue.len())
        }
    }

    /// Deliveries of this stage are numbered.
    pub open spec fn tracks_attempts(self) -> bool {
        self.cfg.max_attempts > 1
    }

    /// The number of the next delivery attempt of the envelope `id`.
    pub open spec fn next_attempt(self, id: Seq<char>) -> u32 {
        if self.attempts.contains_key(id) {
            next_u32(self.attempts[id])
        } else {
            1
        }
    }

    pub open spec fn bumped(self, id: Seq<char>) -> ChannelView<C> {
        ChannelView { attempts: self.attempts.insert(id, self.next_attempt(id)), ..self }
    }

    pub open spec fn cleared(self, id: Seq<char>) -> ChannelView<C> {
        ChannelView { attempts: self.attempts.remove(id), ..self }
    }

    /// The attempts of the envelope `id` are over.
    pub open spec fn forgetting(self, id: Seq<char>) -> ChannelView<C> {
        if self.tracks_attempts() {
            self.cleared(id)
        } else {
            self
        }
    }

    /// The consumers that the next envelope goes to.
    pub open spec fn selected(self) -> Seq<Arc<C>> {
        match self.cfg.delivery {
            Delivery::PubSub => self.consumers,
            Delivery::PointToPoint => seq![
                self.consumers[self.rr as int % self.consumers.len() as int],
            ],
        }
    }

    /// The turn passes on where consumers take turns.
    pub open spec fn turned(self) -> ChannelView<C> {
        match self.cfg.delivery {
            Delivery::PubSub => self,
            Delivery::PointToPoint => ChannelView { rr: next_usize(self.rr), ..self },
        }
    }

    /// An envelope in flight was acked.
    pub open spec fn acked(self) -> ChannelView<C> {
        ChannelView {
            delivered: counted(self.delivered, 1),
            in_flight: (self.in_flight - 1) as nat,
            ..self
        }
    }

    /// An envelope in flight was nacked; it is still in flight.
    pub open spec fn nacking(self) -> ChannelView<C> {
        ChannelView { nacked: counted(self.nacked, 1), ..self }
    }

    /// An envelope in flight goes back to the queue.
    pub open spec fn requeued(self, env: EnvelopeView) -> ChannelView<C> {
        ChannelView {
            queue: self.queue.push(env),
            in_flight: (self.in_flight - 1) as nat,
            ..self
        }
    }

    /// An envelope in flight leaves the stage as a dead letter.
    pub open spec fn burying(self) -> ChannelView<C> {
        ChannelView {
            dead_lettered: counted(self.dead_lettered, 1),
            in_flight: (self.in_flight - 1) as nat,
            ..self
        }
    }

    pub open spec fn with_permits(self, permits: usize) -> ChannelView<C> {
        ChannelView { permits, ..self }
    }

    pub open spec fn subscribed(self, consumer: Arc<C>) -> ChannelView<C> {
        ChannelView { consumers: self.consumers.push(consumer), ..self }
    }

    pub open spec fn stats(self) -> Stats {
        Stats {
            depth: self.queue.len() as usize,
            enqueued: self.enqueued,
            delivered: self.delivered,
            nacked: self.nacked,
            dropped: self.dropped,
            dead_lettered: self.dead_lettered,
        }
    }
}

/// Evicting one more envelope.
proof fn lemma_evict_one<C>(s: ChannelView<C>, n: nat)
    requires
        n < s.queue.len(),
    ensures
        s.evicted(n).evicted(1) == s.evicted(n + 1),
{
    assert(s.queue.skip(n as int).skip(1) =~= s.queue.skip(n as int + 1));
}

/// What a queue holds, as views.
spec fn contents(queue: ArrayQueue<Envelope>) -> Seq<EnvelopeView> {
    queued(queue).map_values(|env: Envelope| env@)
}

impl<C> View for Channel<C> {
    type V = ChannelView<C>;

    closed spec fn view(&self) -> ChannelView<C> {
        ChannelView {
            name: self.name@,
            cfg: self.cfg,
            queue: contents(self.queue),
            consumers: self.consumers@,
            rr: self.rr,
            permits: self.permits,
            waiters: self.waiters,
            enqueued: self.enqueued,
            delivered: self.delivered,
            nacked: self.nacked,
            dropped: self.dropped,
            dead_lettered: self.dead_lettered,
            attempts: self.attempts@,
            in_flight: self.in_flight@,
            refused: self.refused@,
            woken: self.woken@,
        }
    }
}

impl<C> Channel<C> {
    /// The parts of the stage fit together.
    pub closed spec fn inv(self) -> bool {
        &&& self.cfg.valid()
        &&& slots(self.queue) == self.cfg.slots()
        &&& self.attempts.inv()
    }

    pub fn new(name: String, cfg: ChannelConfig) -> (res: Channel<C>)
        requires
            cfg.valid(),
        ensures
            res.inv(),
            res@ == ChannelView::<C>::fresh(name@, cfg),
            res@.wf(),
    {
        let requeue_headroom: usize = if cfg.max_attempts > 1 {
            cfg.concurrency
        } else {
            0
        };
        let res = Channel {
            name,
            cfg,
            queue: queue_new((cfg.capacity + requeue_headroom).max(1)),
            consumers: Vec::new(),
            rr: 0,
            permits: cfg.concurrency,
            waiters: 0,
            enqueued: 0,
            delivered: 0,
            nacked: 0,
            dropped: 0,
            dead_lettered: 0,
            attempts: NameMap::new(),
            in_flight: Ghost(0),
            refused: Ghost(0),
            woken: Ghost(0),
        };
        assert(res@ =~= ChannelView::<C>::fresh(name@, cfg));
        res
    }

    pub fn depth(&self) -> (res: usize)
        ensures
            res == self@.queue.len(),
    {
        queue_len(&self.queue)
    }

    /// Offer an envelope to the stage. `expired` says that its producer may
    /// not wait for room.
    pub fn offer(&mut self, env: Envelope, expired: bool) -> (res: Offer)
        requires
            old(self).inv(),
        ensures
            final(self).inv(),
            final(self)@ == old(self)@.offered(env@, expired),
            res.is(old(self)@.offer_outcome(expired), env@),
    {
        let ghost mut evicted: nat = 0;
        let mut held = env;
        assert(self@ =~= old(self)@.evicted(0));
        loop
            invariant
                self.inv(),
                held@ == env@,
                evicted <= old(self)@.queue.len(),
                self@ == old(self)@.evicted(evicted),
                evicted > 0 ==> {
                    &&& self@.cfg.backpressure == Backpressure::DropOldest
                    &&& self@.queue.len() + 1 >= self@.cfg.capacity
                    &&& !old(self)@.has_room()
                },
            decreases self@.queue.len(),
        {
            proof {
                self.lemma_cfg();
                assert(evicted == 0 ==> self@ =~= old(self)@);
            }
            if self.depth() < self.cfg.capacity {
                match self.push(held) {
                    Ok(_) => {
                        assert(evicted > 0 ==> evicted == old(self)@.queue.len()
                            - old(self)@.cfg.capacity + 1);
                        return Offer::Accepted;
                    },
                    Err(back) => {
                        held = back;
                    },
                }
            }
            match self.cfg.backpressure {
                Backpressure::Reject | Backpressure::DropNewest => {
                    self.refuse();
                    return Offer::Refused;
                },
                Backpressure::DropOldest => {
                    let _ = self.evict();
                    proof {
                        lemma_evict_one(old(self)@, evicted);
                        evicted = evicted + 1;
                    }
                },
                Backpressure::Block => {
                    if expired {
                        self.refuse();
                        return Offer::Refused;
                    }
                    self.park();
                    return Offer::Full(held);
                },
            }
        }
    }

    proof fn lemma_cfg(&self)
        requires
            self.inv(),
        ensures
            self@.cfg == self.cfg,
            self.cfg.valid(),
            slots(self.queue) == self.cfg.slots(),
    {
    }

    /// Queue an envelope where a slot is free.
    fn push(&mut self, env: Envelope) -> (res: Result<(), Envelope>)
        requires
            old(self).inv(),
        ensures
            final(self).inv(),
            match res {
                Ok(_) => {
                    &&& old(self)@.queue.len() < old(self)@.cfg.slots()
                    &&& final(self)@ == old(self)@.admitted(env@)
                },
                Err(back) => {
                    &&& old(self)@.queue.len() >= old(self)@.cfg.slots()
                    &&& final(self)@ == old(self)@
                    &&& back@ == env@
                },
            },
    {
        match queue_push(&mut self.queue, env) {
            Ok(_) => {
                self.enqueued = self.enqueued.wrapping_add(1);
                assert(self@ =~= old(self)@.admitted(env@));
                Ok(())
            },
            Err(back) => Err(back),
        }
    }

    /// Discard the oldest envelope, if there is one.
    fn evict(&mut self) -> (res: bool)
        requires
            old(self).inv(),
        ensures
            final(self).inv(),
            res == (old(self)@.queue.len() > 0),
            final(self)@ == if res {
                old(self)@.evicted(1)
            } else {
                old(self)@
            },
    {
        match queue_pop(&mut self.queue) {
            Some(_) => {
                self.dropped = self.dropped.wrapping_add(1);
                assert(self@ =~= old(self)@.evicted(1));
                true
            },
            None => false,
        }
    }

    /// Turn an envelope on offer away.
    fn refuse(&mut self)
        requires
            old(self).inv(),
        ensures
            final(self).inv(),
            final(self)@ == old(self)@.refusing(),
    {
        self.dropped = self.dropped.wrapping_add(1);
        self.refused = Ghost(self.refused@ + 1);
        assert(self@ =~= old(self)@.refusing());
    }

    /// Count one more producer that waits for room.
    fn park(&mut self)
        requires
            old(self).inv(),
        ensures
            final(self).inv(),
            final(self)@ == old(self)@.parking(),
    {
        self.waiters = self.waiters.wrapping_add(1);
        assert(self@ =~= old(self)@.parking());
    }

    /// A producer that waited for room offers its envelope again.
    pub fn retry(&mut self, env: Envelope, expired: bool) -> (res: Offer)
        requires
            old(self).inv(),
            old(self)@.waiters > 0,
        ensures
            final(self).inv(),
            final(self)@ == old(self)@.unparked().offered(env@, expired),
            res.is(old(self)@.unparked().offer_outcome(expired), env@),
    {
        self.waiters = self.waiters - 1;
        proof {
            if self.woken@ > 0 {
                self.woken@ = (self.woken@ - 1) as nat;
            }
            assert(self@ =~= old(self)@.unparked());
        }
        self.offer(env, expired)
    }

    /// A producer that waited for room gives up, and its envelope is discarded.
    pub fn withdraw(&mut self)
        requires
            old(self).inv(),
            old(self)@.waiters > 0,
        ensures
            final(self).inv(),
            final(self)@ == old(self)@.withdrawn(),
    {
        self.waiters = self.waiters - 1;
        self.refuse();
        assert(self@ =~= old(self)@.withdrawn());
    }

    /// Take the oldest envelope to handle it. The flag says whether a producer
    /// that waits for room is to be woken.
    pub fn poll(&mut self) -> (res: Option<(Envelope, bool)>)
        requires
            old(self).inv(),
        ensures
            final(self).inv(),
            match res {
                Some((env, wake)) => {
                    &&& old(self)@.queue.len() > 0
                    &&& env@ == old(self)@.queue[0]
                    &&& wake == (old(self)@.waiters > 0)
                    &&& final(self)@ == old(self)@.polled()
                },
                None => old(self)@.queue.len() == 0 && final(self)@ == old(self)@,
            },
    {
        match queue_pop(&mut self.queue) {
            Some(env) => {
                proof {
                    self.in_flight@ = self.in_flight@ + 1;
                    if self.waiters > 0 {
                        self.woken@ = self.woken@ + 1;
                    }
                    assert(self@ =~= old(self)@.polled());
                }
                Some((env, self.waiters > 0))
            },
            None => None,
        }
    }

    /// Discard all that is queued. Returns how many producers that wait for
    /// room are to be woken.
    pub fn sweep(&mut self) -> (res: usize)
        requires
            old(self).inv(),
        ensures
            final(self).inv(),
            final(self)@ == old(self)@.swept(),
            res == if old(self)@.waiters > 0 {
                old(self)@.queue.len()
            } else {
                0
            },
    {
        let count: usize = self.depth();
        let ghost mut evicted: nat = 0;
        assert(self@ =~= old(self)@.evicted(0));
        loop
            invariant
                self.inv(),
                evicted <= old(self)@.queue.len(),
                self@ == old(self)@.evicted(evicted),
            ensures
                self.inv(),
                self@ == old(self)@.evicted(old(self)@.queue.len()),
            decreases self@.queue.len(),
        {
            if !self.evict() {
                break;
            }
            proof {
                lemma_evict_one(old(self)@, evicted);
                evicted = evicted + 1;
            }
        }
        if self.waiters > 0 {
            proof {
                self.woken@ = self.woken@ + count as nat;
            }
            count
        } else {
            0
        }
    }

    /// Put an envelope in flight back into the queue, for another attempt.
    /// Room is set aside for it, so there is no capacity check.
    pub fn requeue(&mut self, env: Envelope)
        requires
            old(self).inv(),
            old(self)@.wf(),
            old(self)@.tracks_attempts(),
            old(self)@.in_flight > 0,
        ensures
            final(self).inv(),
            final(self)@ == old(self)@.requeued(env@),
    {
        match queue_push(&mut self.queue, env) {
            Ok(_) => {
                self.in_flight = Ghost((self.in_flight@ - 1) as nat);
                assert(self@ =~= old(self)@.requeued(env@));
            },
            Err(_) => {
                // The headroom leaves a slot for every envelope in flight.
                assert(false);
            },
        }
    }

    /// Number the next delivery attempt of the envelope `id`.
    pub fn bump_attempt(&mut self, id: &str) -> (res: u32)
        requires
            old(self).inv(),
        ensures
            final(self).inv(),
            final(self)@ == old(self)@.bumped(id@),
            res == old(self)@.next_attempt(id@),
    {
        let made: u32 = match self.attempts.get(id) {
            Some(n) => *n,
            None => 0,
        };
        let attempt: u32 = made.wrapping_add(1);
        self.attempts.insert(id.to_string(), attempt);
        attempt
    }

    /// Forget the delivery attempts made for the envelope `id`.
    pub fn clear_attempt(&mut self, id: &str)
        requires
            old(self).inv(),
        ensures
            final(self).inv(),
            final(self)@ == old(self)@.cleared(id@),
    {
        let _ = self.attempts.remove(id);
    }

    pub fn try_acquire(&mut self) -> (res: bool)
        requires
            old(self).inv(),
        ensures
            final(self).inv(),
            res == (old(self)@.permits > 0),
            final(self)@ == if res {
                old(self)@.with_permits((old(self)@.permits - 1) as usize)
            } else {
                old(self)@
            },
    {
        if self.permits == 0 {
            return false;
        }
        self.permits = self.permits - 1;
        true
    }

    /// No worker drains the stage or was told to.
    pub fn is_idle(&self) -> (res: bool)
        ensures
            res == (self@.permits == self@.cfg.concurrency),
    {
        self.permits == self.cfg.concurrency
    }

    pub fn release(&mut self)
        requires
            old(self).inv(),
            old(self)@.permits < old(self)@.cfg.concurrency,
        ensures
            final(self).inv(),
            final(self)@ == old(self)@.with_permits((old(self)@.permits + 1) as usize),
    {
        self.permits = self.permits + 1;
    }

    pub fn name(&self) -> (res: &str)
        ensures
            res@ == self@.name,
    {
        self.name.as_str()
    }

    pub fn cfg(&self) -> (res: ChannelConfig)
        ensures
            res == self@.cfg,
    {
        self.cfg
    }

    pub fn has_consumers(&self) -> (res: bool)
        ensures
            res == (self@.consumers.len() > 0),
    {
        self.consumers.len() > 0
    }

    pub fn subscribe(&mut self, consumer: Arc<C>)
        requires
            old(self).inv(),
        ensures
            final(self).inv(),
            final(self)@ == old(self)@.subscribed(consumer),
    {
        self.consumers.push(consumer);
    }

    /// The consumers that the next envelope goes to: all of them, or the one
    /// whose turn it is.
    pub fn select(&mut self) -> (res: Vec<Arc<C>>)
        requires
            old(self).inv(),
            old(self)@.consumers.len() > 0,
        ensures
            final(self).inv(),
            final(self)@ == old(self)@.turned(),
            res@ == old(self)@.selected(),
    {
        let mut chosen: Vec<Arc<C>> = Vec::new();
        let n: usize = self.consumers.len();
        match self.cfg.delivery {
            Delivery::PubSub => {
                let mut i: usize = 0;
                while i < n
                    invariant
                        i <= n,
                        n == self.consumers@.len(),
                        chosen@ == self.consumers@.take(i as int),
                    decreases n - i,
                {
                    chosen.push(self.consumers[i].clone());
                    i = i + 1;
                    assert(chosen@ =~= self.consumers@.take(i as int));
                }
                assert(chosen@ =~= self.consumers@);
            },
            Delivery::PointToPoint => {
                let idx: usize = self.rr % n;
                self.rr = self.rr.wrapping_add(1);
                chosen.push(self.consumers[idx].clone());
                assert(chosen@ =~= old(self)@.selected());
            },
        }
        chosen
    }

    /// An envelope in flight was acked.
    pub fn ack(&mut self)
        requires
            old(self).inv(),
            old(self)@.in_flight > 0,
        ensures
            final(self).inv(),
            final(self)@ == old(self)@.acked(),
    {
        self.delivered = self.delivered.wrapping_add(1);
        self.in_flight = Ghost((self.in_flight@ - 1) as nat);
    }

    /// An envelope in flight was nacked.
    pub fn nack(&mut self)
        requires
            old(self).inv(),
        ensures
            final(self).inv(),
            final(self)@ == old(self)@.nacking(),
    {
        self.nacked = self.nacked.wrapping_add(1);
    }

    /// An envelope in flight leaves as a dead letter.
    pub fn bury(&mut self)
        requires
            old(self).inv(),
            old(self)@.in_flight > 0,
        ensures
            final(self).inv(),
            final(self)@ == old(self)@.burying(),
    {
        self.dead_lettered = self.dead_lettered.wrapping_add(1);
        self.in_flight = Ghost((self.in_flight@ - 1) as nat);
    }

    pub fn stats(&self) -> (res: Stats)
        ensures
            res == self@.stats(),
    {
        Stats {
            depth: self.depth(),
            enqueued: self.enqueued,
            delivered: self.delivered,
            nacked: self.nacked,
            dropped: self.dropped,
            dead_lettered: self.dead_lettered,
        }
    }
}

} // verus!
