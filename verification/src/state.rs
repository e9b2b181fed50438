//! The bus as a mathematical state: what each step makes of it, and what
//! holds of it at all times.

use crate::channel::{ChannelView, Outcome, Stats};
use crate::config::{Backpressure, ChannelConfig, Delivery, FORWARD_TIMEOUT_SECS};
use crate::consumer::Consumer;
use crate::envelope::EnvelopeView;
use crate::pool::{Job, PoolView};
use std::sync::Arc;
use vstd::prelude::*;

verus! {

/// Why an envelope was not published.
#[derive(Clone, Copy, Debug, PartialEq, Eq, Structural)]
pub enum Refusal {
    /// The bus is paused or shut down.
    NotAccepting,
    /// The envelope has nowhere to go.
    NoRoute,
    /// No stage has the name that the envelope is headed for.
    NoChannel,
    /// The stage discarded the envelope.
    Discarded,
}

/// What became of an envelope that was published.
pub enum PublishView {
    Accepted,
    Refused(Refusal),
    /// The producer waits for room in a stage, and keeps the envelope.
    Parked { channel: usize, env: EnvelopeView, callback: bool },
}

/// An envelope on its way through the consumers of a stage.
pub struct FlightView<C> {
    pub channel: usize,
    pub env: EnvelopeView,
    pub attempt: u32,
    pub consumers: Seq<Arc<C>>,
}

/// What becomes of an envelope taken from a stage's queue.
pub enum ProcessView<C> {
    /// The stage has no consumers. This is the id of the envelope.
    DeadLettered(Seq<char>),
    Deliver(FlightView<C>),
}

/// What became of an envelope whose delivery ended.
pub enum SettledView<K> {
    /// It was nacked, and is queued again.
    Requeued,
    /// It was nacked for the last time.
    DeadLettered,
    /// It was acked, and published to its next stage. Where it has to wait for
    /// room, it does so for `timeout_secs` seconds at most.
    Forwarded { outcome: PublishView, timeout_secs: u64 },
    /// It was acked at the end of its itinerary, and someone waits to hear it.
    Completed(K, EnvelopeView),
    /// It was acked at the end of its itinerary.
    Finished,
}

#[verifier::ext_equal]
#[verifier::reject_recursive_types(C)]
#[verifier::reject_recursive_types(K)]
pub struct BusView<C, K> {
    /// The stages, in the order in which they were registered.
    pub channels: Seq<ChannelView<C>>,
    /// Where each stage stands among them.
    pub index: Map<Seq<char>, usize>,
    /// Where the dead letters of a stage go.
    pub dlq: Map<Seq<char>, Seq<char>>,
    /// Who waits to hear that an envelope finished its itinerary.
    pub callbacks: Map<Seq<char>, K>,
    pub pool: PoolView<usize>,
    pub running: bool,
    pub accepting: bool,
    /// How many workers are draining each stage.
    pub drains: Seq<nat>,
}

/// How a stage is configured when nothing is said of it.
pub open spec fn default_config() -> ChannelConfig {
    ChannelConfig {
        capacity: 1024,
        concurrency: 1,
        delivery: Delivery::PointToPoint,
        backpressure: Backpressure::Block,
        max_attempts: 1,
    }
}

/// How a stage for dead letters is configured when nothing is said of it.
pub open spec fn dead_letter_config() -> ChannelConfig {
    ChannelConfig {
        capacity: 4096,
        backpressure: Backpressure::DropOldest,
        ..default_config()
    }
}

/// How many of `jobs` drain stage `i`.
pub open spec fn drain_jobs(jobs: Seq<Job<usize>>, i: int) -> nat
    decreases jobs.len(),
{
    if jobs.len() == 0 {
        0
    } else {
        drain_jobs(jobs.drop_last(), i) + if jobs.last() == Job::Run(i as usize) {
            1nat
        } else {
            0nat
        }
    }
}

impl<C, K> BusView<C, K> {
    /// A running bus of `workers` workers, without stages.
    pub open spec fn fresh(workers: int) -> BusView<C, K> {
        BusView {
            channels: Seq::empty(),
            index: Map::empty(),
            dlq: Map::empty(),
            callbacks: Map::empty(),
            pool: PoolView {
                jobs: Seq::empty(),
                stopped: false,
                workers: workers as usize,
                size: workers as usize,
            },
            running: true,
            accepting: true,
            drains: Seq::empty(),
        }
    }

    pub open spec fn with_channel(self, i: int, c: ChannelView<C>) -> BusView<C, K> {
        BusView { channels: self.channels.update(i, c), ..self }
    }

    pub open spec fn with_callbacks(self, callbacks: Map<Seq<char>, K>) -> BusView<C, K> {
        BusView { callbacks, ..self }
    }

    /// A stage is registered, unless its name is taken.
    pub open spec fn registered(self, name: Seq<char>, cfg: ChannelConfig) -> BusView<C, K> {
        if self.index.contains_key(name) {
            self
        } else {
            BusView {
                channels: self.channels.push(ChannelView::fresh(name, cfg)),
                index: self.index.insert(name, self.channels.len() as usize),
                drains: self.drains.push(0),
                ..self
            }
        }
    }

    /// A consumer joins a stage, registered with defaults where it is not.
    pub open spec fn subscribed(self, name: Seq<char>, consumer: Arc<C>) -> BusView<C, K> {
        let s = self.registered(name, default_config());
        let i = s.index[name] as int;
        s.with_channel(i, s.channels[i].subscribed(consumer))
    }

    /// The dead letters of `source` go to the stage `dlq`.
    pub open spec fn with_dead_letters(self, source: Seq<char>, dlq: Seq<char>) -> BusView<C, K> {
        let s = self.registered(dlq, dead_letter_config());
        BusView { dlq: s.dlq.insert(source, dlq), ..s }
    }

    /// The metrics of every stage.
    pub open spec fn stats(self) -> Map<Seq<char>, Stats> {
        self.index.map_values(|i: usize| self.channels[i as int].stats())
    }

    /// `n` of the free permits of stage `i` go to drain jobs.
    pub open spec fn granted(self, i: int, n: nat) -> BusView<C, K> {
        let c = self.channels[i];
        BusView {
            pool: PoolView {
                jobs: self.pool.jobs + Seq::new(n, |k: int| Job::Run(i as usize)),
                ..self.pool
            },
            ..self.with_channel(i, c.with_permits((c.permits - n) as usize))
        }
    }

    /// Where something is queued, every free permit of stage `i` goes to a
    /// drain job; a pool that was stopped takes none.
    pub open spec fn scheduled(self, i: int) -> BusView<C, K> {
        if self.channels[i].queue.len() > 0 && !self.pool.stopped {
            self.granted(i, self.channels[i].permits as nat)
        } else {
            self
        }
    }

    /// `env` is offered to stage `i`, and drained where it was let in.
    pub open spec fn entered(self, i: int, env: EnvelopeView, expired: bool) -> BusView<C, K> {
        let s = self.with_channel(i, self.channels[i].offered(env, expired));
        if self.channels[i].offer_outcome(expired) is Accepted {
            s.scheduled(i)
        } else {
            s
        }
    }

    pub open spec fn enter_outcome(
        self,
        i: usize,
        env: EnvelopeView,
        expired: bool,
        callback: bool,
    ) -> PublishView {
        match self.channels[i as int].offer_outcome(expired) {
            Outcome::Accepted => PublishView::Accepted,
            Outcome::Refused => PublishView::Refused(Refusal::Discarded),
            Outcome::Full => PublishView::Parked { channel: i, env, callback },
        }
    }

    /// Why `env` cannot be offered to any stage, if it cannot.
    pub open spec fn refusal(self, env: EnvelopeView) -> Option<Refusal> {
        if !self.running || !self.accepting {
            Some(Refusal::NotAccepting)
        } else {
            match env.target() {
                None => Some(Refusal::NoRoute),
                Some(name) => if self.index.contains_key(name) {
                    None
                } else {
                    Some(Refusal::NoChannel)
                },
            }
        }
    }

    /// The stage that `env` is headed for.
    pub open spec fn stage_of(self, env: EnvelopeView) -> usize {
        self.index[env.target().unwrap()]
    }

    /// The bus after `env` was published.
    pub open spec fn published(self, env: EnvelopeView, expired: bool) -> BusView<C, K> {
        if self.refusal(env) is Some {
            self
        } else {
            self.entered(self.stage_of(env) as int, env.started(), expired)
        }
    }

    pub open spec fn publish_outcome(
        self,
        env: EnvelopeView,
        expired: bool,
        callback: bool,
    ) -> PublishView {
        match self.refusal(env) {
            Some(why) => PublishView::Refused(why),
            None => self.enter_outcome(self.stage_of(env), env.started(), expired, callback),
        }
    }

    /// An envelope that is `outcome` keeps its callback, unless it was refused.
    pub open spec fn settled_callback(
        self,
        outcome: PublishView,
        id: Seq<char>,
    ) -> BusView<C, K> {
        if outcome is Refused {
            self.with_callbacks(self.callbacks.remove(id))
        } else {
            self
        }
    }

    pub open spec fn published_with_callback(
        self,
        env: EnvelopeView,
        expired: bool,
        on_complete: K,
    ) -> BusView<C, K> {
        let s = self.with_callbacks(self.callbacks.insert(env.id, on_complete));
        s.published(env, expired).settled_callback(
            s.publish_outcome(env, expired, true),
            env.id,
        )
    }

    /// A producer that waited for room in stage `i` tries again. A bus that was
    /// stopped lets nothing in.
    pub open spec fn retried(
        self,
        i: usize,
        env: EnvelopeView,
        expired: bool,
        callback: bool,
    ) -> BusView<C, K> {
        let t = if self.running {
            self.with_channel(i as int, self.channels[i as int].unparked()).entered(
                i as int,
                env,
                expired,
            )
        } else {
            self.with_channel(i as int, self.channels[i as int].withdrawn())
        };
        if callback {
            t.settled_callback(self.retry_outcome(i, env, expired, callback), env.id)
        } else {
            t
        }
    }

    pub open spec fn retry_outcome(
        self,
        i: usize,
        env: EnvelopeView,
        expired: bool,
        callback: bool,
    ) -> PublishView {
        if self.running {
            self.with_channel(i as int, self.channels[i as int].unparked()).enter_outcome(
                i,
                env,
                expired,
                callback,
            )
        } else {
            PublishView::Refused(Refusal::NotAccepting)
        }
    }

    /// Where the dead letters of stage `i` go, if anywhere.
    pub open spec fn grave_of(self, i: int) -> Option<usize> {
        let name = self.channels[i].name;
        if self.dlq.contains_key(name) && self.index.contains_key(self.dlq[name]) {
            Some(self.index[self.dlq[name]])
        } else {
            None
        }
    }

    /// `env`, in flight at stage `i`, becomes a dead letter: it is offered to
    /// the dead-letter stage, without waiting, and nobody hears of it.
    pub open spec fn buried(self, i: int, env: EnvelopeView) -> BusView<C, K> {
        let s = self.with_channel(i, self.channels[i].burying());
        let t = match self.grave_of(i) {
            Some(j) => s.with_channel(
                j as int,
                s.channels[j as int].offered(env, true),
            ).scheduled(j as int),
            None => s,
        };
        t.with_callbacks(t.callbacks.remove(env.id))
    }

    /// `env` finished a hop: it goes on to the next one, or is done.
    pub open spec fn hopped(self, env: EnvelopeView) -> BusView<C, K> {
        if env.slip.pending.len() > 0 {
            self.published(env.advanced(), false)
        } else {
            self.with_callbacks(self.callbacks.remove(env.id))
        }
    }

    pub open spec fn hop_outcome(self, env: EnvelopeView) -> SettledView<K> {
        if env.slip.pending.len() > 0 {
            SettledView::Forwarded {
                outcome: self.publish_outcome(env.advanced(), false, false),
                timeout_secs: FORWARD_TIMEOUT_SECS,
            }
        } else if self.callbacks.contains_key(env.id) {
            SettledView::Completed(self.callbacks[env.id], env.advanced())
        } else {
            SettledView::Finished
        }
    }

    /// `env`, taken from the queue of stage `i`, is assigned to consumers.
    pub open spec fn processed(self, i: int, env: EnvelopeView) -> BusView<C, K> {
        let c = self.channels[i];
        if c.consumers.len() == 0 {
            self.buried(i, env)
        } else if c.tracks_attempts() {
            self.with_channel(i, c.bumped(env.id).turned())
        } else {
            self.with_channel(i, c.turned())
        }
    }

    pub open spec fn process_outcome(self, i: usize, env: EnvelopeView) -> ProcessView<C> {
        let c = self.channels[i as int];
        if c.consumers.len() == 0 {
            ProcessView::DeadLettered(env.id)
        } else {
            ProcessView::Deliver(
                FlightView {
                    channel: i,
                    env,
                    attempt: if c.tracks_attempts() {
                        c.next_attempt(env.id)
                    } else {
                        1
                    },
                    consumers: c.selected(),
                },
            )
        }
    }

    /// The delivery of an envelope in flight ended with `ack`.
    pub open spec fn settled(self, flight: FlightView<C>, ack: bool) -> BusView<C, K> {
        let i = flight.channel as int;
        let c = self.channels[i];
        let env = flight.env;
        if ack {
            self.with_channel(i, c.acked().forgetting(env.id)).hopped(env)
        } else if flight.attempt < c.cfg.max_attempts {
            self.with_channel(i, c.nacking().requeued(env))
        } else {
            self.with_channel(i, c.nacking().forgetting(env.id)).buried(i, env)
        }
    }

    pub open spec fn settle_outcome(self, flight: FlightView<C>, ack: bool) -> SettledView<K> {
        let i = flight.channel as int;
        let c = self.channels[i];
        if ack {
            self.with_channel(i, c.acked().forgetting(flight.env.id)).hop_outcome(flight.env)
        } else if flight.attempt < c.cfg.max_attempts {
            SettledView::Requeued
        } else {
            SettledView::DeadLettered
        }
    }

    pub open spec fn with_drains(self, i: int, n: nat) -> BusView<C, K> {
        BusView { drains: self.drains.update(i, n), ..self }
    }

    /// A worker takes the first job.
    pub open spec fn job_taken(self) -> BusView<C, K> {
        let s = BusView {
            pool: PoolView { jobs: self.pool.jobs.skip(1), ..self.pool },
            ..self
        };
        match self.pool.jobs[0] {
            Job::Run(i) => s.with_drains(i as int, self.drains[i as int] + 1),
            Job::Stop => s,
        }
    }

    /// A drain of stage `i` that may take `left` more envelopes takes one.
    pub open spec fn drain_takes(self, i: int, left: usize) -> bool {
        self.running && left > 0 && self.channels[i].queue.len() > 0
    }

    /// A drain took the oldest envelope of stage `i`, and had it assigned.
    pub open spec fn drain_taken(self, i: int) -> BusView<C, K> {
        let c = self.channels[i];
        self.with_channel(i, c.polled()).processed(i, c.queue[0])
    }

    pub open spec fn drain_outcome(self, i: usize) -> ProcessView<C> {
        let c = self.channels[i as int];
        self.with_channel(i as int, c.polled()).process_outcome(i, c.queue[0])
    }

    /// A drain of stage `i` gives its permit back.
    pub open spec fn released(self, i: int) -> BusView<C, K> {
        let c = self.channels[i];
        self.with_channel(i, c.with_permits((c.permits + 1) as usize)).with_drains(
            i,
            (self.drains[i] - 1) as nat,
        )
    }

    /// A drain of stage `i` ends: its permit is free again, and work that is
    /// left is scheduled while the bus is running.
    pub open spec fn drained(self, i: int) -> BusView<C, K> {
        if self.running {
            self.released(i).scheduled(i)
        } else {
            self.released(i)
        }
    }

    /// Nothing more is accepted from producers.
    pub open spec fn paused(self) -> BusView<C, K> {
        BusView { accepting: false, ..self }
    }

    /// Envelopes are accepted again, unless the bus was shut down.
    pub open spec fn resumed(self) -> BusView<C, K> {
        if self.running {
            BusView { accepting: true, ..self }
        } else {
            self
        }
    }

    /// Nothing is queued in any stage.
    pub open spec fn empty(self) -> bool {
        forall|i: int| 0 <= i < self.channels.len() ==> (#[trigger] self.channels[i]).queue.len() == 0
    }

    /// Nothing is queued in any stage, and nothing taken from one is still
    /// being handled: every permit is free.
    pub open spec fn quiet(self) -> bool {
        forall|i: int|
            0 <= i < self.channels.len() ==> (#[trigger] self.channels[i]).queue.len() == 0
                && self.channels[i].permits == self.channels[i].cfg.concurrency
    }

    /// Nothing is processed any more, and the workers are told to stop.
    pub open spec fn halted(self) -> BusView<C, K> {
        BusView { running: false, pool: self.pool.joined(), ..self }
    }

    /// Nothing is accepted and nothing is processed any more.
    pub open spec fn stopped(self) -> BusView<C, K> {
        self.paused().halted()
    }

    /// All that is still queued in the stages before `n` is dropped.
    pub open spec fn swept_below(self, n: int) -> BusView<C, K> {
        BusView {
            channels: self.channels.map(
                |i: int, c: ChannelView<C>|
                    if i < n {
                        c.swept()
                    } else {
                        c
                    },
            ),
            ..self
        }
    }

    /// All that is still queued is dropped.
    pub open spec fn swept(self) -> BusView<C, K> {
        BusView {
            channels: self.channels.map_values(|c: ChannelView<C>| c.swept()),
            ..self
        }
    }

    /// For each stage, how many of its producers are woken by that: one for
    /// each envelope dropped, where any wait.
    pub open spec fn sweep_wakes(self) -> Seq<usize> {
        self.channels.map_values(
            |c: ChannelView<C>|
                if c.waiters > 0 {
                    c.queue.len() as usize
                } else {
                    0
                },
        )
    }
}

impl<C: Consumer, K> BusView<C, K> {
    /// What holds of stage `i`: its counts are in order, each of its permits is
    /// free, with a job or with a worker, and a worker has at most one of its
    /// envelopes in flight.
    pub open spec fn stage_wf(self, i: int) -> bool {
        let c = self.channels[i];
        &&& c.wf()
        &&& self.index.contains_key(c.name)
        &&& self.index[c.name] == i
        &&& c.permits + drain_jobs(self.pool.jobs, i) + self.drains[i] == c.cfg.concurrency
        &&& c.in_flight <= self.drains[i]
        &&& forall|k: int| 0 <= k < c.consumers.len() ==> (#[trigger] c.consumers[k]).ready()
    }

    /// While the bus is running, a stage that has work and may be drained is
    /// being drained, or about to be.
    pub open spec fn stage_served(self, i: int) -> bool {
        let c = self.channels[i];
        self.running && c.queue.len() > 0 && c.cfg.concurrency > 0 ==> c.permits < c.cfg.concurrency
    }

    /// What holds of the bus as a whole.
    pub open spec fn frame_wf(self) -> bool {
        &&& self.drains.len() == self.channels.len()
        &&& self.channels.len() <= usize::MAX
        &&& self.running ==> !self.pool.stopped
        &&& forall|name: Seq<char>| #[trigger]
            self.index.contains_key(name) ==> {
                &&& self.index[name] < self.channels.len()
                &&& self.channels[self.index[name] as int].name == name
            }
        &&& forall|k: int| #![trigger self.pool.jobs[k]]
            0 <= k < self.pool.jobs.len() ==> match self.pool.jobs[k] {
                Job::Run(j) => j < self.channels.len(),
                Job::Stop => true,
            }
    }

    /// A producer waits for stage `i`.
    pub open spec fn waited_for(self, i: int) -> bool {
        &&& 0 <= i < self.channels.len()
        &&& self.channels[i].waiters > 0
    }

    /// A worker is draining stage `i` and has no envelope of it in flight.
    pub open spec fn idle_drain(self, i: int) -> bool {
        &&& 0 <= i < self.channels.len()
        &&& self.channels[i].in_flight < self.drains[i]
    }

    /// `flight` is under way at one of the stages.
    pub open spec fn flying(self, flight: FlightView<C>) -> bool {
        let i = flight.channel as int;
        &&& i < self.channels.len()
        &&& self.channels[i].in_flight > 0
        &&& self.channels[i].tracks_attempts() || flight.attempt == 1
    }

    /// The invariant, but for stage `i` having work that nobody was told of.
    pub open spec fn wf_but(self, i: int) -> bool {
        &&& self.frame_wf()
        &&& forall|j: int| 0 <= j < self.channels.len() ==> #[trigger] self.stage_wf(j)
        &&& forall|j: int| 0 <= j < self.channels.len() && j != i ==> #[trigger] self.stage_served(j)
    }

    pub open spec fn wf(self) -> bool {
        &&& self.frame_wf()
        &&& forall|j: int| 0 <= j < self.channels.len() ==> #[trigger] self.stage_wf(j)
        &&& forall|j: int| 0 <= j < self.channels.len() ==> #[trigger] self.stage_served(j)
    }
}

} // verus!
