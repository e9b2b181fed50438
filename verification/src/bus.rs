//! The bus: a registry of stages drained by one shared worker pool.

use crate::channel::{Channel, Offer, Stats};
use crate::config::{at_least_one, Backpressure, ChannelConfig, FORWARD_TIMEOUT_SECS};
use crate::consumer::{handled, Consumer};
use crate::envelope::{Envelope, EnvelopeView};
use crate::invariants::{
    lemma_accepting, lemma_all_swept, lemma_buried, lemma_dlq, lemma_drained, lemma_entered,
    lemma_halted, lemma_hopped, lemma_job_taken, lemma_processed, lemma_registered, lemma_retried,
    lemma_scheduled, lemma_settled, lemma_subscribed, lemma_taken,
    lemma_with_callbacks,
};
use crate::name_map::NameMap;
use crate::pool::{Job, Pool};
use crate::state::{BusView, FlightView, ProcessView, PublishView, Refusal, SettledView};
use std::sync::Arc;
use vstd::prelude::*;

verus! {

/// Envelopes a single drain handles before it releases its permit and
/// reschedules. Amortises scheduling cost without starving other stages.
pub const BATCH: usize = 16;

/// A producer that waits for room in a stage.
pub struct Parked {
    channel: usize,
    env: Envelope,
    callback: bool,
}

impl Parked {
    pub closed spec fn channel(self) -> usize {
        self.channel
    }

    pub closed spec fn env(self) -> EnvelopeView {
        self.env@
    }

    pub closed spec fn callback(self) -> bool {
        self.callback
    }

    /// The stage that it waits for.
    pub fn stage(&self) -> (res: usize)
        ensures
            res == self.channel(),
    {
        self.channel
    }
}

/// What became of an envelope that was published.
pub enum Publish {
    /// A stage has queued it.
    Accepted,
    /// It was not let in.
    Refused(Refusal),
    /// The stage is full. The producer waits, until it is woken or out of
    /// time, and then calls [`Bus::retry`].
    Parked(Parked),
}

impl View for Publish {
    type V = PublishView;

    open spec fn view(&self) -> PublishView {
        match *self {
            Publish::Accepted => PublishView::Accepted,
            Publish::Refused(why) => PublishView::Refused(why),
            Publish::Parked(p) => PublishView::Parked {
                channel: p.channel(),
                env: p.env(),
                callback: p.callback(),
            },
        }
    }
}

/// An envelope on its way through the consumers of a stage.
pub struct InFlight<C> {
    channel: usize,
    env: Envelope,
    attempt: u32,
    consumers: Vec<Arc<C>>,
}

impl<C> View for InFlight<C> {
    type V = FlightView<C>;

    closed spec fn view(&self) -> FlightView<C> {
        FlightView {
            channel: self.channel,
            env: self.env@,
            attempt: self.attempt,
            consumers: self.consumers@,
        }
    }
}

impl<C: Consumer> InFlight<C> {
    pub closed spec fn envelope(self) -> Envelope {
        self.env
    }

    /// The envelope that is under way.
    pub fn env(&self) -> (res: &Envelope)
        ensures
            *res == self.envelope(),
            res@ == self@.env,
    {
        &self.env
    }

    /// Hands the envelope to each of its consumers in turn. It is acked where
    /// all of them ack; a nack keeps none of the others from receiving it.
    pub fn deliver(&mut self) -> (ack: bool)
        requires
            forall|k: int|
                0 <= k < old(self)@.consumers.len() ==> (#[trigger] old(self)@.consumers[k]).ready(),
        ensures
            final(self)@ == (FlightView { env: final(self).envelope()@, ..old(self)@ }),
            exists|trace: Seq<Envelope>, acks: Seq<bool>| #[trigger]
                handled(old(self)@.consumers, trace, acks) && trace[0] == old(self).envelope()
                    && trace[0]@ == old(self)@.env && trace.last() == final(self).envelope() && ack
                    == (forall|k: int| 0 <= k < acks.len() ==> acks[k]),
    {
        crate::consumer::deliver(&self.consumers, &mut self.env)
    }
}

/// What becomes of an envelope taken from a stage's queue.
pub enum Process<C> {
    /// The stage has no consumers. This is the id of the envelope.
    DeadLettered(String),
    /// It is to be delivered, and then settled.
    Deliver(InFlight<C>),
}

impl<C> View for Process<C> {
    type V = ProcessView<C>;

    open spec fn view(&self) -> ProcessView<C> {
        match *self {
            Process::DeadLettered(id) => ProcessView::DeadLettered(id@),
            Process::Deliver(flight) => ProcessView::Deliver(flight@),
        }
    }
}

/// What became of an envelope whose delivery ended.
pub enum Settled<K> {
    /// It was nacked, and is queued again.
    Requeued,
    /// It was nacked for the last time.
    DeadLettered,
    /// It was acked, and published to its next stage. Where that has no room,
    /// the worker waits as a producer does, for `timeout_secs` seconds at most,
    /// and then calls [`Bus::retry`].
    Forwarded { outcome: Publish, timeout_secs: u64 },
    /// It was acked at the end of its itinerary, and the callback is due.
    Completed(K, Envelope),
    /// It was acked at the end of its itinerary, and nobody waits for it.
    Finished,
}

impl<K> View for Settled<K> {
    type V = SettledView<K>;

    open spec fn view(&self) -> SettledView<K> {
        match *self {
            Settled::Requeued => SettledView::Requeued,
            Settled::DeadLettered => SettledView::DeadLettered,
            Settled::Forwarded { outcome, timeout_secs } => SettledView::Forwarded {
                outcome: outcome@,
                timeout_secs,
            },
            Settled::Completed(cb, env) => SettledView::Completed(cb, env@),
            Settled::Finished => SettledView::Finished,
        }
    }
}

/// A worker's turn at a stage: it holds one of the stage's permits.
pub struct Drain {
    channel: usize,
    left: usize,
}

impl Drain {
    pub closed spec fn channel(self) -> usize {
        self.channel
    }

    /// Envelopes that the drain may still take.
    pub closed spec fn left(self) -> usize {
        self.left
    }

    /// The stage that it drains.
    pub fn stage(&self) -> (res: usize)
        ensures
            res == self.channel(),
    {
        self.channel
    }
}

/// What a drain does next.
pub enum DrainStep<C> {
    /// It took an envelope. `wake` says that a producer waits for the room.
    Took { drain: Drain, wake: bool, process: Process<C> },
    /// Its batch is handled, the queue is empty, or the bus is stopping: the
    /// permit was released.
    Finished,
}

/// What a shutdown does next.
pub enum Shutdown {
    /// There is work left, and time: look again later, by [`Bus::await_drain`].
    Wait,
    /// The pool takes no more work, and `workers` threads are to be joined.
    /// After that, [`Bus::finish_shutdown`] accounts for what is left.
    Join { workers: usize },
}

#[verifier::reject_recursive_types(C)]
#[verifier::reject_recursive_types(K)]
pub struct Bus<C, K> {
    channels: Vec<Channel<C>>,
    index: NameMap<usize>,
    dlq: NameMap<String>,
    callbacks: NameMap<K>,
    pool: Pool<usize>,
    running: bool,
    accepting: bool,
    drains: Ghost<Seq<nat>>,
}

impl<C, K> View for Bus<C, K> {
    type V = BusView<C, K>;

    closed spec fn view(&self) -> BusView<C, K> {
        BusView {
            channels: self.channels@.map_values(|c: Channel<C>| c@),
            index: self.index@,
            dlq: self.dlq@.map_values(|s: String| s@),
            callbacks: self.callbacks@,
            pool: self.pool@,
            running: self.running,
            accepting: self.accepting,
            drains: self.drains@,
        }
    }
}

impl<C: Consumer, K> Bus<C, K> {
    /// The parts of the bus fit together.
    spec fn parts(self) -> bool {
        &&& forall|i: int| 0 <= i < self.channels@.len() ==> (#[trigger] self.channels@[i]).inv()
        &&& self.index.inv()
        &&& self.dlq.inv()
        &&& self.callbacks.inv()
    }

    /// Holds between any two steps.
    pub closed spec fn inv(self) -> bool {
        &&& self.parts()
        &&& self@.wf()
    }

    /// What the invariant says of the state.
    pub proof fn lemma_inv(self)
        requires
            self.inv(),
        ensures
            self@.wf(),
    {
    }

    /// Create and start a bus with `workers` shared workers. With 0 it has one
    /// for each of the `cores` that are available, or 4 where their number is
    /// not known.
    pub fn new(workers: usize, cores: Option<usize>) -> (res: Self)
        ensures
            res.inv(),
            res@ == BusView::<C, K>::fresh(
                if workers != 0 {
                    workers as int
                } else {
                    match cores {
                        Some(n) => at_least_one(n as int),
                        None => 4,
                    }
                },
            ),
    {
        let size: usize = if workers == 0 {
            match cores {
                Some(n) => n,
                None => 4,
            }
        } else {
            workers
        };
        let res = Bus {
            channels: Vec::new(),
            index: NameMap::new(),
            dlq: NameMap::new(),
            callbacks: NameMap::new(),
            pool: Pool::new(size),
            running: true,
            accepting: true,
            drains: Ghost(Seq::empty()),
        };
        assert(res@ =~= BusView::<C, K>::fresh(at_least_one(size as int)));
        res
    }

    pub fn workers(&self) -> (res: usize)
        ensures
            res == self@.pool.size,
    {
        self.pool.size()
    }

    /// Register a stage. Re-registering a name is a no-op.
    pub fn channel(&mut self, name: &str, cfg: ChannelConfig) -> (res: &mut Self)
        requires
            old(self).inv(),
            !old(self)@.index.contains_key(name@) ==> cfg.valid() && old(self)@.channels.len()
                < usize::MAX,
        ensures
            res.inv(),
            res@ == old(self)@.registered(name@, cfg),
            *final(self) == *final(res),
    {
        let _ = self.get_or_create(name, cfg);
        self
    }

    /// Whether a stage of that name is registered.
    pub fn is_registered(&self, name: &str) -> (res: bool)
        requires
            self.inv(),
        ensures
            res == self@.index.contains_key(name@),
    {
        self.index.get(name).is_some()
    }

    /// The name of stage `i`.
    pub fn stage_name(&self, i: usize) -> (res: &str)
        requires
            self.inv(),
            i < self@.channels.len(),
        ensures
            res@ == self@.channels[i as int].name,
    {
        assert(self.channels@[i as int]@ == self@.channels[i as int]);
        self.channels[i].name()
    }

    /// The stage of that name, registered first where there is none.
    fn get_or_create(&mut self, name: &str, cfg: ChannelConfig) -> (res: usize)
        requires
            old(self).inv(),
            !old(self)@.index.contains_key(name@) ==> cfg.valid() && old(self)@.channels.len()
                < usize::MAX,
        ensures
            final(self).inv(),
            final(self)@ == old(self)@.registered(name@, cfg),
            final(self)@.index.contains_key(name@),
            res == final(self)@.index[name@],
            res < final(self)@.channels.len(),
    {
        let found: Option<usize> = match self.index.get(name) {
            Some(i) => Some(*i),
            None => None,
        };
        match found {
            Some(i) => i,
            None => {
                let i: usize = self.channels.len();
                self.index.insert(name.to_string(), i);
                self.channels.push(Channel::new(name.to_string(), cfg));
                self.drains = Ghost(self.drains@.push(0));
                proof {
                    assert(self@ =~= old(self)@.registered(name@, cfg));
                    lemma_registered(old(self)@, name@, cfg);
                }
                i
            },
        }
    }

    /// Attach a consumer to a stage. Creates the stage with defaults if needed.
    pub fn subscribe(&mut self, channel: &str, consumer: C) -> (res: &mut Self)
        requires
            old(self).inv(),
            consumer.ready(),
            !old(self)@.index.contains_key(channel@) ==> old(self)@.channels.len() < usize::MAX,
        ensures
            res.inv(),
            res@ == old(self)@.subscribed(channel@, Arc::new(consumer)),
            *final(self) == *final(res),
    {
        let i: usize = self.get_or_create(channel, ChannelConfig::default());
        let ghost before = *self;
        self.channels[i].subscribe(Arc::new(consumer));
        proof {
            lemma_stage_set(before, *self, i as int);
            lemma_subscribed(before@, i as int, Arc::new(consumer));
        }
        self
    }

    /// Route dead letters from `source` to the channel named `dlq`.
    pub fn set_dead_letter_channel(&mut self, source: &str, dlq: &str) -> (res: &mut Self)
        requires
            old(self).inv(),
            !old(self)@.index.contains_key(dlq@) ==> old(self)@.channels.len() < usize::MAX,
        ensures
            res.inv(),
            res@ == old(self)@.with_dead_letters(source@, dlq@),
            *final(self) == *final(res),
    {
        let _ = self.get_or_create(
            dlq,
            ChannelConfig::default().capacity(4096).backpressure(Backpressure::DropOldest),
        );
        let ghost before = self@;
        self.dlq.insert(source.to_string(), dlq.to_string());
        proof {
            assert(self@ =~= (BusView { dlq: before.dlq.insert(source@, dlq@), ..before }));
            lemma_dlq(before, before.dlq.insert(source@, dlq@));
        }
        self
    }

    /// The metrics of every stage, by name.
    pub fn get_stats(&self) -> (res: NameMap<Stats>)
        requires
            self.inv(),
        ensures
            res.inv(),
            res@ == self@.stats(),
    {
        let mut res: NameMap<Stats> = NameMap::new();
        let mut i: usize = 0;
        let n: usize = self.channels.len();
        while i < n
            invariant
                self.inv(),
                i <= n,
                n == self.channels@.len(),
                res.inv(),
                forall|name: Seq<char>| #[trigger]
                    res@.contains_key(name) <==> (self@.index.contains_key(name)
                        && self@.index[name] < i),
                forall|name: Seq<char>| #[trigger]
                    res@.contains_key(name) ==> res@[name]
                        == self@.channels[self@.index[name] as int].stats(),
            decreases n - i,
        {
            assert(self@.stage_wf(i as int));
            assert(self@.channels[i as int] == self.channels@[i as int]@);
            let ch = &self.channels[i];
            res.insert(ch.name().to_string(), ch.stats());
            i = i + 1;
        }
        assert(res@ =~= self@.stats());
        res
    }

    /// Publish an envelope to the stage at the head of its routing slip.
    /// `expired` says that its producer may not wait for room.
    pub fn publish(&mut self, env: Envelope, expired: bool) -> (res: Publish)
        requires
            old(self).inv(),
        ensures
            final(self).inv(),
            final(self)@ == old(self)@.published(env@, expired),
            res@ == old(self)@.publish_outcome(env@, expired, false),
    {
        self.route(env, expired, false)
    }

    /// Publish, and keep `on_complete` until the envelope finishes its
    /// itinerary (all routing-slip hops acked).
    pub fn publish_with_callback(&mut self, env: Envelope, expired: bool, on_complete: K) -> (res:
        Publish)
        requires
            old(self).inv(),
        ensures
            final(self).inv(),
            final(self)@ == old(self)@.published_with_callback(env@, expired, on_complete),
            res@ == old(self)@.with_callbacks(
                old(self)@.callbacks.insert(env@.id, on_complete),
            ).publish_outcome(env@, expired, true),
    {
        let id = env.id.clone();
        self.callbacks.insert(id.clone(), on_complete);
        proof {
            assert(self@ =~= old(self)@.with_callbacks(
                old(self)@.callbacks.insert(env@.id, on_complete),
            ));
            lemma_with_callbacks(old(self)@, self@.callbacks);
        }
        let outcome = self.route(env, expired, true);
        if let Publish::Refused(_) = outcome {
            self.forget(id.as_str());
        }
        outcome
    }

    /// A producer that waited for room tries again. On a bus that was stopped
    /// it is turned away, its envelope counted as dropped, and the next one
    /// that waits for the stage is to be woken in its place.
    pub fn retry(&mut self, parked: Parked, expired: bool) -> (res: Publish)
        requires
            old(self).inv(),
            old(self)@.waited_for(parked.channel() as int),
        ensures
            final(self).inv(),
            final(self)@ == old(self)@.retried(
                parked.channel(),
                parked.env(),
                expired,
                parked.callback(),
            ),
            res@ == old(self)@.retry_outcome(
                parked.channel(),
                parked.env(),
                expired,
                parked.callback(),
            ),
    {
        let Parked { channel: i, env, callback } = parked;
        let id = env.id.clone();
        proof {
            lemma_retried(old(self)@, i as int, env@, expired);
            assert(self@.channels.len() == self.channels@.len());
            assert(self.channels@[i as int]@ == self@.channels[i as int]);
        }
        let outcome = if self.running {
            let offer = self.channels[i].retry(env, expired);
            proof {
                lemma_stage_set(*old(self), *self, i as int);
                let u = old(self)@.with_channel(
                    i as int,
                    old(self)@.channels[i as int].unparked(),
                );
                assert(self@ =~= u.with_channel(
                    i as int,
                    u.channels[i as int].offered(env@, expired),
                ));
            }
            self.entered(i, offer, callback)
        } else {
            self.channels[i].withdraw();
            proof {
                lemma_stage_set(*old(self), *self, i as int);
            }
            Publish::Refused(Refusal::NotAccepting)
        };
        if callback {
            if let Publish::Refused(_) = outcome {
                self.forget(id.as_str());
            }
        }
        outcome
    }

    fn route(&mut self, env: Envelope, expired: bool, callback: bool) -> (res: Publish)
        requires
            old(self).inv(),
        ensures
            final(self).inv(),
            final(self)@ == old(self)@.published(env@, expired),
            res@ == old(self)@.publish_outcome(env@, expired, callback),
    {
        if !self.running || !self.accepting {
            return Publish::Refused(Refusal::NotAccepting);
        }
        let mut env = env;
        let target: usize = match env.current_service() {
            Some(service) => match self.index.get(service) {
                Some(i) => *i,
                None => {
                    return Publish::Refused(Refusal::NoChannel);
                },
            },
            None => {
                return Publish::Refused(Refusal::NoRoute);
            },
        };
        self.enter(target, env, expired, callback)
    }

    /// Offer an envelope to stage `i`, and have the stage drained.
    fn enter(&mut self, i: usize, env: Envelope, expired: bool, callback: bool) -> (res: Publish)
        requires
            old(self).inv(),
            i < old(self)@.channels.len(),
        ensures
            final(self).inv(),
            final(self)@ == old(self)@.entered(i as int, env@, expired),
            res@ == old(self)@.enter_outcome(i, env@, expired, callback),
    {
        let offer = self.channels[i].offer(env, expired);
        proof {
            lemma_stage_set(*old(self), *self, i as int);
            lemma_entered(old(self)@, i as int, env@, expired);
        }
        self.entered(i, offer, callback)
    }

    /// An envelope was offered to stage `i`: have the stage drained where it
    /// was let in.
    fn entered(&mut self, i: usize, offer: Offer, callback: bool) -> (res: Publish)
        requires
            old(self).parts(),
            old(self)@.wf_but(i as int),
            i < old(self)@.channels.len(),
            !(offer is Accepted) ==> old(self)@.wf(),
        ensures
            final(self).inv(),
            final(self)@ == if offer is Accepted {
                old(self)@.scheduled(i as int)
            } else {
                old(self)@
            },
            match offer {
                Offer::Accepted => res@ == PublishView::Accepted,
                Offer::Refused => res@ == PublishView::Refused(Refusal::Discarded),
                Offer::Full(env) => res@ == (PublishView::Parked { channel: i, env: env@, callback }),
            },
    {
        match offer {
            Offer::Accepted => {
                self.schedule(i);
                Publish::Accepted
            },
            Offer::Refused => Publish::Refused(Refusal::Discarded),
            Offer::Full(env) => Publish::Parked(Parked { channel: i, env, callback }),
        }
    }

    /// Drop the callback of the envelope `id`.
    fn forget(&mut self, id: &str)
        requires
            old(self).inv(),
        ensures
            final(self).inv(),
            final(self)@ == old(self)@.with_callbacks(old(self)@.callbacks.remove(id@)),
    {
        let _ = self.callbacks.remove(id);
        proof {
            assert(self@ =~= old(self)@.with_callbacks(old(self)@.callbacks.remove(id@)));
            lemma_with_callbacks(old(self)@, self@.callbacks);
        }
    }

    /// Give every free permit of stage `i` to a drain job while it has work.
    fn schedule(&mut self, i: usize)
        requires
            old(self).parts(),
            old(self)@.wf_but(i as int),
            i < old(self)@.channels.len(),
        ensures
            final(self).inv(),
            final(self)@ == old(self)@.scheduled(i as int),
    {
        let ghost start = self@;
        let ghost c = self@.channels[i as int];
        let ghost mut given: nat = 0;
        proof {
            assert(start.stage_wf(i as int));
            lemma_scheduled(start, i as int);
            assert(self@ =~= start.granted(i as int, 0));
        }
        loop
            invariant
                self.parts(),
                start == old(self)@,
                start.scheduled(i as int).wf(),
                c == start.channels[i as int],
                c.permits <= c.cfg.concurrency,
                i < start.channels.len(),
                given <= c.permits,
                given > 0 ==> c.queue.len() > 0 && !start.pool.stopped,
                self@ == start.granted(i as int, given),
            ensures
                self.parts(),
                self@ == start.scheduled(i as int),
                start.scheduled(i as int).wf(),
            decreases c.permits - given,
        {
            let ghost before = *self;
            assert(self@.channels.len() == self.channels@.len());
            assert(self.channels@[i as int]@ == self@.channels[i as int]);
            if self.channels[i].depth() == 0 {
                assert(self@ =~= start.scheduled(i as int));
                break;
            }
            if !self.channels[i].try_acquire() {
                proof {
                    lemma_stage_set(before, *self, i as int);
                    assert(self@ =~= start.scheduled(i as int));
                }
                break;
            }
            proof {
                lemma_stage_set(before, *self, i as int);
            }
            let ghost acquired = *self;
            if !self.pool.execute(i) {
                self.channels[i].release();
                proof {
                    lemma_stage_set(acquired, *self, i as int);
                    assert(self@ =~= start.scheduled(i as int));
                }
                break;
            }
            proof {
                given = given + 1;
                assert(self@ =~= start.granted(i as int, given));
            }
        }
    }

    /// Decide what becomes of an envelope just taken from the queue of stage
    /// `i`: with no consumers it is a dead letter, else it goes to those whose
    /// turn it is.
    pub fn process(&mut self, i: usize, env: Envelope) -> (res: Process<C>)
        requires
            old(self).inv(),
            i < old(self)@.channels.len(),
            old(self)@.channels[i as int].in_flight > 0,
        ensures
            final(self).inv(),
            final(self)@ == old(self)@.processed(i as int, env@),
            res@ == old(self)@.process_outcome(i, env@),
            match res {
                Process::Deliver(flight) => {
                    &&& final(self)@.flying(flight@)
                    &&& forall|k: int|
                        0 <= k < flight@.consumers.len() ==> (
                        #[trigger] flight@.consumers[k]).ready()
                },
                Process::DeadLettered(_) => final(self)@.idle_drain(i as int),
            },
    {
        proof {
            lemma_processed(old(self)@, i as int, env@);
            assert(old(self)@.stage_wf(i as int));
            assert(self@.channels.len() == self.channels@.len());
            assert(self.channels@[i as int]@ == self@.channels[i as int]);
        }
        if !self.channels[i].has_consumers() {
            let id = env.id.clone();
            self.dead_letter(i, env);
            return Process::DeadLettered(id);
        }
        // With a single allowed attempt the attempt count cannot change the
        // outcome, and is not kept.
        let attempt: u32 = if self.channels[i].cfg().max_attempts > 1 {
            self.channels[i].bump_attempt(env.id())
        } else {
            1
        };
        let consumers = self.channels[i].select();
        proof {
            lemma_stage_set(*old(self), *self, i as int);
        }
        Process::Deliver(InFlight { channel: i, env, attempt, consumers })
    }

    /// The delivery of an envelope ended with `ack`. An acked envelope goes on
    /// to its next hop, where it waits for room for [`FORWARD_TIMEOUT_SECS`] at
    /// most; a nacked one is retried, or dead-lettered after its last attempt.
    pub fn settle(&mut self, flight: InFlight<C>, ack: bool) -> (res: Settled<K>)
        requires
            old(self).inv(),
            old(self)@.flying(flight@),
        ensures
            final(self).inv(),
            final(self)@ == old(self)@.settled(flight@, ack),
            res@ == old(self)@.settle_outcome(flight@, ack),
            final(self)@.idle_drain(flight@.channel as int),
    {
        let InFlight { channel: i, env, attempt, consumers: _ } = flight;
        proof {
            lemma_settled(old(self)@, flight@, ack);
            assert(old(self)@.stage_wf(i as int));
            assert(self@.channels.len() == self.channels@.len());
            assert(self.channels@[i as int]@ == self@.channels[i as int]);
        }
        let cfg = self.channels[i].cfg();
        let track_attempts = cfg.max_attempts > 1;
        if ack {
            self.channels[i].ack();
            if track_attempts {
                self.channels[i].clear_attempt(env.id());
            }
            proof {
                lemma_stage_set(*old(self), *self, i as int);
            }
            self.complete_hop(env)
        } else if attempt < cfg.max_attempts {
            self.channels[i].nack();
            self.channels[i].requeue(env);
            proof {
                lemma_stage_set(*old(self), *self, i as int);
            }
            Settled::Requeued
        } else {
            self.channels[i].nack();
            if track_attempts {
                self.channels[i].clear_attempt(env.id());
            }
            proof {
                lemma_stage_set(*old(self), *self, i as int);
            }
            self.dead_letter(i, env);
            Settled::DeadLettered
        }
    }

    /// An envelope was acked: send it on to its next hop, or hand its callback
    /// out where it has none left.
    fn complete_hop(&mut self, env: Envelope) -> (res: Settled<K>)
        requires
            old(self).inv(),
        ensures
            final(self).inv(),
            final(self)@ == old(self)@.hopped(env@),
            res@ == old(self)@.hop_outcome(env@),
    {
        proof {
            lemma_hopped(old(self)@, env@);
        }
        let mut env = env;
        if env.next_hop() {
            let outcome = self.route(env, false, false);
            return Settled::Forwarded { outcome, timeout_secs: FORWARD_TIMEOUT_SECS };
        }
        let cb = self.callbacks.remove(env.id());
        assert(self@ =~= old(self)@.with_callbacks(old(self)@.callbacks.remove(env@.id)));
        match cb {
            Some(cb) => Settled::Completed(cb, env),
            None => Settled::Finished,
        }
    }

    /// Count an envelope in flight at stage `i` as a dead letter, and offer it
    /// to the stage that takes those.
    fn dead_letter(&mut self, i: usize, env: Envelope)
        requires
            old(self).inv(),
            i < old(self)@.channels.len(),
            old(self)@.channels[i as int].in_flight > 0,
        ensures
            final(self).inv(),
            final(self)@ == old(self)@.buried(i as int, env@),
    {
        proof {
            lemma_buried(old(self)@, i as int, env@);
            assert(self@.channels.len() == self.channels@.len());
            assert(self.channels@[i as int]@ == self@.channels[i as int]);
        }
        self.channels[i].bury();
        proof {
            lemma_stage_set(*old(self), *self, i as int);
        }
        let id = env.id.clone();
        let grave: Option<usize> = match self.dlq.get(self.channels[i].name()) {
            Some(dlq_name) => match self.index.get(dlq_name.as_str()) {
                Some(j) => Some(*j),
                None => None,
            },
            None => None,
        };
        assert(grave == old(self)@.grave_of(i as int));
        if let Some(j) = grave {
            let ghost before = *self;
            let _ = self.channels[j].offer(env, true);
            proof {
                lemma_stage_set(before, *self, j as int);
            }
            self.schedule(j);
        }
        self.forget(id.as_str());
    }

    /// The next job for a worker that is free: a stage to drain, or the order
    /// to stop.
    pub fn next_job(&mut self) -> (res: Option<Job<Drain>>)
        requires
            old(self).inv(),
        ensures
            final(self).inv(),
            match res {
                None => old(self)@.pool.jobs.len() == 0 && final(self)@ == old(self)@,
                Some(job) => {
                    &&& old(self)@.pool.jobs.len() > 0
                    &&& final(self)@ == old(self)@.job_taken()
                    &&& match job {
                        Job::Run(drain) => {
                            &&& old(self)@.pool.jobs[0] == Job::Run(drain.channel())
                            &&& drain.left() == BATCH
                            &&& final(self)@.idle_drain(drain.channel() as int)
                        },
                        Job::Stop => old(self)@.pool.jobs[0] == Job::<usize>::Stop,
                    }
                },
            },
    {
        proof {
            if self@.pool.jobs.len() > 0 {
                lemma_job_taken(self@);
            }
        }
        match self.pool.take() {
            Some(Job::Run(i)) => {
                self.drains = Ghost(self.drains@.update(i as int, self.drains@[i as int] + 1));
                assert(self@ =~= old(self)@.job_taken());
                Some(Job::Run(Drain { channel: i, left: BATCH }))
            },
            Some(Job::Stop) => {
                assert(self@ =~= old(self)@.job_taken());
                Some(Job::Stop)
            },
            None => None,
        }
    }

    /// One step of a drain: take the next envelope while the bus is running
    /// and the batch is not exhausted; else release the permit, and have what
    /// is left drained by another job.
    pub fn drain(&mut self, drain: Drain) -> (res: DrainStep<C>)
        requires
            old(self).inv(),
            old(self)@.idle_drain(drain.channel() as int),
        ensures
            final(self).inv(),
            match res {
                DrainStep::Took { drain: rest, wake, process } => {
                    &&& old(self)@.drain_takes(drain.channel() as int, drain.left())
                    &&& rest.channel() == drain.channel()
                    &&& rest.left() == drain.left() - 1
                    &&& wake == (old(self)@.channels[drain.channel() as int].waiters > 0)
                    &&& final(self)@ == old(self)@.drain_taken(drain.channel() as int)
                    &&& process@ == old(self)@.drain_outcome(drain.channel())
                    &&& match process {
                        Process::Deliver(flight) => {
                            &&& final(self)@.flying(flight@)
                            &&& forall|k: int|
                                0 <= k < flight@.consumers.len() ==> (
                                #[trigger] flight@.consumers[k]).ready()
                        },
                        Process::DeadLettered(_) => final(self)@.idle_drain(drain.channel() as int),
                    }
                },
                DrainStep::Finished => {
                    &&& !old(self)@.drain_takes(drain.channel() as int, drain.left())
                    &&& final(self)@ == old(self)@.drained(drain.channel() as int)
                },
            },
    {
        let Drain { channel: i, left } = drain;
        proof {
            assert(old(self)@.stage_wf(i as int));
            assert(self@.channels.len() == self.channels@.len());
            assert(self.channels@[i as int]@ == self@.channels[i as int]);
        }
        if self.running && left > 0 {
            if let Some((env, wake)) = self.channels[i].poll() {
                proof {
                    lemma_taken(old(self)@, i as int);
                    lemma_stage_set(*old(self), *self, i as int);
                }
                let process = self.process(i, env);
                return DrainStep::Took { drain: Drain { channel: i, left: left - 1 }, wake, process };
            }
        }
        let ghost before = *self;
        proof {
            lemma_drained(old(self)@, i as int);
            assert(before@ =~= old(self)@);
        }
        self.channels[i].release();
        proof {
            lemma_stage_set(before, *self, i as int);
        }
        self.drains = Ghost(self.drains@.update(i as int, (self.drains@[i as int] - 1) as nat));
        assert(self@ =~= old(self)@.released(i as int));
        if self.running {
            self.schedule(i);
        }
        DrainStep::Finished
    }

    pub fn pause(&mut self)
        requires
            old(self).inv(),
        ensures
            final(self).inv(),
            final(self)@ == old(self)@.paused(),
    {
        self.accepting = false;
        proof {
            lemma_accepting(old(self)@, false);
        }
    }

    pub fn resume(&mut self)
        requires
            old(self).inv(),
        ensures
            final(self).inv(),
            final(self)@ == old(self)@.resumed(),
    {
        if self.running {
            self.accepting = true;
        }
        proof {
            lemma_accepting(old(self)@, true);
        }
    }

    /// Stop accepting, and wait until all work is done or `expired` says that
    /// time is up; then stop the pool. Looking again is up to
    /// [`Bus::await_drain`].
    pub fn shutdown(&mut self, expired: bool) -> (res: Shutdown)
        requires
            old(self).inv(),
        ensures
            final(self).inv(),
            match res {
                Shutdown::Wait => {
                    &&& !old(self)@.quiet() && !expired
                    &&& final(self)@ == old(self)@.paused()
                },
                Shutdown::Join { workers } => {
                    &&& old(self)@.quiet() || expired
                    &&& workers == old(self)@.pool.workers
                    &&& final(self)@ == old(self)@.stopped()
                },
            },
    {
        self.pause();
        self.await_drain(expired)
    }

    /// A shutdown that was told to wait looks again. What it left to be
    /// accepted or not stays so: a [`Bus::resume`] in between holds.
    pub fn await_drain(&mut self, expired: bool) -> (res: Shutdown)
        requires
            old(self).inv(),
        ensures
            final(self).inv(),
            match res {
                Shutdown::Wait => {
                    &&& !old(self)@.quiet() && !expired
                    &&& final(self)@ == old(self)@
                },
                Shutdown::Join { workers } => {
                    &&& old(self)@.quiet() || expired
                    &&& workers == old(self)@.pool.workers
                    &&& final(self)@ == old(self)@.halted()
                },
            },
    {
        if !expired && !self.is_drained() {
            return Shutdown::Wait;
        }
        let workers: usize = self.halt();
        Shutdown::Join { workers }
    }

    /// Stop the pool. Returns how many workers are to be joined.
    fn halt(&mut self) -> (res: usize)
        requires
            old(self).inv(),
        ensures
            final(self).inv(),
            final(self)@ == old(self)@.halted(),
            res == old(self)@.pool.workers,
    {
        self.running = false;
        let workers: usize = self.pool.join();
        proof {
            assert(self@ =~= old(self)@.halted());
            lemma_halted(old(self)@);
        }
        workers
    }

    /// Stop accepting and stop the pool without waiting for the queues to
    /// drain. Returns how many workers are to be joined.
    pub fn shutdown_now(&mut self) -> (res: usize)
        requires
            old(self).inv(),
        ensures
            final(self).inv(),
            final(self)@ == old(self)@.stopped(),
            res == old(self)@.pool.workers,
    {
        self.pause();
        self.halt()
    }

    /// Nothing is queued in any stage, and nothing is being handled.
    pub fn is_drained(&self) -> (res: bool)
        requires
            self.inv(),
        ensures
            res == self@.quiet(),
    {
        let mut i: usize = 0;
        while i < self.channels.len()
            invariant
                self.inv(),
                i <= self.channels@.len(),
                forall|j: int|
                    0 <= j < i ==> (#[trigger] self@.channels[j]).queue.len() == 0
                        && self@.channels[j].permits == self@.channels[j].cfg.concurrency,
            decreases self.channels@.len() - i,
        {
            assert(self.channels@[i as int]@ == self@.channels[i as int]);
            if self.channels[i].depth() != 0 || !self.channels[i].is_idle() {
                return false;
            }
            i = i + 1;
        }
        assert(self@.channels.len() == self.channels@.len());
        true
    }

    /// After the workers have ended: count all that is left in the queues as
    /// dropped. The flag says that everything had drained, and nothing was
    /// left. Also returns how many of the producers that wait for each stage
    /// are to be woken.
    pub fn finish_shutdown(&mut self) -> (res: (bool, Vec<usize>))
        requires
            old(self).inv(),
        ensures
            final(self).inv(),
            final(self)@ == old(self)@.swept(),
            res.0 == old(self)@.empty(),
            res.1@ == old(self)@.sweep_wakes(),
    {
        let mut drained: bool = true;
        let mut wakes: Vec<usize> = Vec::new();
        let n: usize = self.channels.len();
        let mut i: usize = 0;
        let ghost start = self@;
        proof {
            assert(start =~= start.swept_below(0));
            assert(start.channels.len() == n);
        }
        while i < n
            invariant
                self.parts(),
                start == old(self)@,
                n == start.channels.len(),
                i <= n,
                self@ == start.swept_below(i as int),
                wakes@ == start.sweep_wakes().take(i as int),
                drained == (forall|j: int|
                    0 <= j < i ==> (#[trigger] start.channels[j]).queue.len() == 0),
            decreases n - i,
        {
            let ghost before = *self;
            proof {
                assert(self@.channels.len() == self.channels@.len());
                assert(self.channels@[i as int]@ == self@.channels[i as int]);
            }
            assert(self@.channels[i as int] == start.channels[i as int]);
            drained = drained && self.channels[i].depth() == 0;
            let woken: usize = self.channels[i].sweep();
            wakes.push(woken);
            proof {
                lemma_stage_set(before, *self, i as int);
                assert(self@ =~= start.swept_below(i + 1));
                assert(wakes@ =~= start.sweep_wakes().take(i + 1));
            }
            i = i + 1;
        }
        proof {
            assert(self@ =~= start.swept());
            assert(wakes@ =~= start.sweep_wakes());
            lemma_all_swept(start);
        }
        (drained, wakes)
    }
}

/// The bus changed in one stage only.
proof fn lemma_stage_set<C: Consumer, K>(before: Bus<C, K>, after: Bus<C, K>, i: int)
    requires
        before.parts(),
        0 <= i < before.channels@.len(),
        after.channels@ =~= before.channels@.update(i, after.channels@[i]),
        after.channels@[i].inv(),
        after.index == before.index,
        after.dlq == before.dlq,
        after.callbacks == before.callbacks,
        after.pool@ == before.pool@,
        after.running == before.running,
        after.accepting == before.accepting,
        after.drains == before.drains,
    ensures
        after.parts(),
        after@ == before@.with_channel(i, after.channels@[i]@),
{
    assert forall|j: int| 0 <= j < after.channels@.len() implies (
    #[trigger] after.channels@[j]).inv() by {
        if j != i {
            assert(after.channels@[j] == before.channels@[j]);
        }
    }
    assert(after@ =~= before@.with_channel(i, after.channels@[i]@));
}

} // verus!
