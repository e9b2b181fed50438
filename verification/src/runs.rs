//! Runs of the bus: producers and workers take steps, one at a time, in
//! whatever order they come to it.

use crate::channel::ChannelView;
use crate::config::{Backpressure, ChannelConfig};
use crate::consumer::Consumer;
use crate::envelope::EnvelopeView;
use crate::invariants::{
    lemma_accepting, lemma_all_swept, lemma_dlq, lemma_drained, lemma_halted, lemma_job_taken,
    lemma_processed, lemma_published, lemma_registered, lemma_retried, lemma_settled,
    lemma_subscribed, lemma_taken, lemma_with_callbacks,
};
use crate::state::{
    dead_letter_config, default_config, BusView, FlightView, ProcessView, SettledView,
};
use std::sync::Arc;
use vstd::prelude::*;

verus! {

/// What may happen to a bus: a call of one of its functions. A shutdown is a
/// pause, then a halt, and then, when the workers have ended, a sweep.
#[verifier::reject_recursive_types(C)]
#[verifier::reject_recursive_types(K)]
pub enum Step<C, K> {
    Register { name: Seq<char>, cfg: ChannelConfig },
    Subscribe { name: Seq<char>, consumer: Arc<C> },
    DeadLetters { source: Seq<char>, dlq: Seq<char> },
    Publish { env: EnvelopeView, expired: bool },
    PublishWithCallback { env: EnvelopeView, expired: bool, on_complete: K },
    Retry { channel: usize, env: EnvelopeView, expired: bool, callback: bool },
    TakeJob,
    Drain { channel: usize, left: usize },
    Settle { flight: FlightView<C>, ack: bool },
    Pause,
    Resume,
    Halt,
    Sweep,
}

impl<C, K> Step<C, K> {
    /// The step publishes `env`, with a callback or without.
    pub open spec fn publishes(self, env: EnvelopeView) -> bool {
        match self {
            Step::Publish { env: e, .. } => e == env,
            Step::PublishWithCallback { env: e, .. } => e == env,
            _ => false,
        }
    }

    /// The step adds a consumer to the stage of that name.
    pub open spec fn subscribes(self, stage: Seq<char>) -> bool {
        match self {
            Step::Subscribe { name, .. } => name == stage,
            _ => false,
        }
    }
}

impl<C: Consumer, K> BusView<C, K> {
    /// There is room for one more name, or it is known.
    pub open spec fn can_name(self, name: Seq<char>) -> bool {
        !self.index.contains_key(name) ==> self.channels.len() < usize::MAX
    }

    /// The step may be taken.
    pub open spec fn allows(self, step: Step<C, K>) -> bool {
        match step {
            Step::Register { name, cfg } => self.can_name(name) && (!self.index.contains_key(name)
                ==> cfg.valid()),
            Step::Subscribe { name, consumer } => self.can_name(name) && consumer.ready(),
            Step::DeadLetters { source, dlq } => self.can_name(dlq),
            Step::Publish { .. } => true,
            Step::PublishWithCallback { .. } => true,
            Step::Retry { channel, .. } => self.waited_for(channel as int),
            Step::TakeJob => self.pool.jobs.len() > 0,
            Step::Drain { channel, .. } => self.idle_drain(channel as int),
            Step::Settle { flight, .. } => self.flying(flight),
            Step::Pause => true,
            Step::Resume => true,
            Step::Halt => true,
            Step::Sweep => true,
        }
    }

    /// The bus after the step.
    pub open spec fn after(self, step: Step<C, K>) -> BusView<C, K> {
        match step {
            Step::Register { name, cfg } => self.registered(name, cfg),
            Step::Subscribe { name, consumer } => self.subscribed(name, consumer),
            Step::DeadLetters { source, dlq } => self.with_dead_letters(source, dlq),
            Step::Publish { env, expired } => self.published(env, expired),
            Step::PublishWithCallback { env, expired, on_complete } =>
                self.published_with_callback(env, expired, on_complete),
            Step::Retry { channel, env, expired, callback } => self.retried(
                channel,
                env,
                expired,
                callback,
            ),
            Step::TakeJob => self.job_taken(),
            Step::Drain { channel, left } => if self.drain_takes(channel as int, left) {
                self.drain_taken(channel as int)
            } else {
                self.drained(channel as int)
            },
            Step::Settle { flight, ack } => self.settled(flight, ack),
            Step::Pause => self.paused(),
            Step::Resume => self.resumed(),
            Step::Halt => self.halted(),
            Step::Sweep => self.swept(),
        }
    }

    /// Where a dead letter of stage `i` is queued, if anywhere.
    pub open spec fn burial(self, i: int, env: EnvelopeView) -> Option<(usize, EnvelopeView)> {
        match self.grave_of(i) {
            Some(j) => if self.channels[j as int].offer_outcome(true) is Accepted {
                Some((j, env))
            } else {
                None
            },
            None => None,
        }
    }

    /// The envelope that the step puts into a queue, if it does, and the stage
    /// whose queue that is. A retry puts one back.
    pub open spec fn arrival(self, step: Step<C, K>) -> Option<(usize, EnvelopeView)> {
        match step {
            Step::Publish { env, expired } => if self.publish_outcome(
                env,
                expired,
                false,
            ) is Accepted {
                Some((self.stage_of(env), env.started()))
            } else {
                None
            },
            Step::PublishWithCallback { env, expired, .. } => if self.publish_outcome(
                env,
                expired,
                true,
            ) is Accepted {
                Some((self.stage_of(env), env.started()))
            } else {
                None
            },
            Step::Retry { channel, env, expired, callback } => if self.retry_outcome(
                channel,
                env,
                expired,
                callback,
            ) is Accepted {
                Some((channel, env))
            } else {
                None
            },
            Step::Drain { channel, left } => {
                let c = self.channels[channel as int];
                if self.drain_takes(channel as int, left) && c.consumers.len() == 0 {
                    self.with_channel(channel as int, c.polled()).burial(
                        channel as int,
                        c.queue[0],
                    )
                } else {
                    None
                }
            },
            Step::Settle { flight, ack } => match self.settle_outcome(flight, ack) {
                SettledView::Requeued => Some((flight.channel, flight.env)),
                SettledView::DeadLettered => self.burial(flight.channel as int, flight.env),
                SettledView::Forwarded { outcome, .. } => if outcome is Accepted {
                    Some((self.stage_of(flight.env.advanced()), flight.env.advanced()))
                } else {
                    None
                },
                _ => None,
            },
            _ => None,
        }
    }

    /// What the step puts into the queue of stage `i`.
    pub open spec fn arriving(self, step: Step<C, K>, i: int) -> Seq<EnvelopeView> {
        match self.arrival(step) {
            Some((j, env)) => if i == j {
                seq![env]
            } else {
                Seq::empty()
            },
            None => Seq::empty(),
        }
    }

    /// How many of the oldest envelopes of stage `i` leave its queue.
    pub open spec fn departing(self, step: Step<C, K>, i: int) -> int {
        self.channels[i].queue.len() + self.arriving(step, i).len() - self.after(
            step,
        ).channels[i].queue.len()
    }

    /// The step is a drain of stage `i` that takes an envelope.
    pub open spec fn takes(self, step: Step<C, K>, i: int) -> bool {
        match step {
            Step::Drain { channel, left } => channel == i && self.drain_takes(i, left),
            _ => false,
        }
    }

    /// The step queues an envelope of stage `i` again, for another attempt.
    pub open spec fn requeues(self, step: Step<C, K>, i: int) -> bool {
        match step {
            Step::Settle { flight, ack } => flight.channel == i && self.settle_outcome(
                flight,
                ack,
            ) is Requeued,
            _ => false,
        }
    }

    /// The step drops what stage `i` has queued.
    pub open spec fn sweeps(self, step: Step<C, K>, i: int) -> bool {
        step is Sweep && self.channels[i].queue.len() > 0
    }

    /// What the step hands to the consumers of stage `i`.
    pub open spec fn handing(self, step: Step<C, K>, i: int) -> Seq<FlightView<C>> {
        if self.takes(step, i) {
            match self.drain_outcome(i as usize) {
                ProcessView::Deliver(flight) => seq![flight],
                ProcessView::DeadLettered(_) => Seq::empty(),
            }
        } else {
            Seq::empty()
        }
    }

    // -- runs ----------------------------------------------------------------

    /// The bus after a run of steps.
    pub open spec fn ran(self, steps: Seq<Step<C, K>>) -> BusView<C, K>
        decreases steps.len(),
    {
        if steps.len() == 0 {
            self
        } else {
            self.ran(steps.drop_last()).after(steps.last())
        }
    }

    /// Each step of the run may be taken.
    pub open spec fn can_run(self, steps: Seq<Step<C, K>>) -> bool
        decreases steps.len(),
    {
        steps.len() == 0 || (self.can_run(steps.drop_last()) && self.ran(steps.drop_last()).allows(
            steps.last(),
        ))
    }

    /// All that the run puts into the queue of stage `i`, in order.
    pub open spec fn arrivals(self, steps: Seq<Step<C, K>>, i: int) -> Seq<EnvelopeView>
        decreases steps.len(),
    {
        if steps.len() == 0 {
            Seq::empty()
        } else {
            self.arrivals(steps.drop_last(), i) + self.ran(steps.drop_last()).arriving(
                steps.last(),
                i,
            )
        }
    }

    /// All that leaves the queue of stage `i` in the run, in order.
    pub open spec fn departures(self, steps: Seq<Step<C, K>>, i: int) -> Seq<EnvelopeView>
        decreases steps.len(),
    {
        if steps.len() == 0 {
            Seq::empty()
        } else {
            let t = self.ran(steps.drop_last());
            self.departures(steps.drop_last(), i) + t.channels[i].queue.take(
                t.departing(steps.last(), i),
            )
        }
    }

    /// All that the run hands to consumers of stage `i`, in order.
    pub open spec fn handed(self, steps: Seq<Step<C, K>>, i: int) -> Seq<FlightView<C>>
        decreases steps.len(),
    {
        if steps.len() == 0 {
            Seq::empty()
        } else {
            self.handed(steps.drop_last(), i) + self.ran(steps.drop_last()).handing(steps.last(), i)
        }
    }

    /// No step of the run drops what stage `i` has queued.
    pub open spec fn unswept(self, steps: Seq<Step<C, K>>, i: int) -> bool
        decreases steps.len(),
    {
        steps.len() == 0 || (self.unswept(steps.drop_last(), i) && !self.ran(
            steps.drop_last(),
        ).sweeps(steps.last(), i))
    }

    /// No step of the run is a retry at stage `i`.
    pub open spec fn unretried(self, steps: Seq<Step<C, K>>, i: int) -> bool
        decreases steps.len(),
    {
        steps.len() == 0 || (self.unretried(steps.drop_last(), i) && !self.ran(
            steps.drop_last(),
        ).requeues(steps.last(), i))
    }
}

/// Every step that may be taken keeps the invariant.
pub(crate) proof fn lemma_after<C: Consumer, K>(s: BusView<C, K>, step: Step<C, K>)
    requires
        s.wf(),
        s.allows(step),
    ensures
        s.after(step).wf(),
{
    match step {
        Step::Register { name, cfg } => {
            if !s.index.contains_key(name) {
                lemma_registered(s, name, cfg);
            }
        },
        Step::Subscribe { name, consumer } => {
            if !s.index.contains_key(name) {
                lemma_registered(s, name, default_config());
            }
            let t = s.registered(name, default_config());
            lemma_subscribed(t, t.index[name] as int, consumer);
        },
        Step::DeadLetters { source, dlq } => {
            if !s.index.contains_key(dlq) {
                lemma_registered(s, dlq, dead_letter_config());
            }
            let t = s.registered(dlq, dead_letter_config());
            lemma_dlq(t, t.dlq.insert(source, dlq));
        },
        Step::Publish { env, expired } => {
            lemma_published(s, env, expired);
        },
        Step::PublishWithCallback { env, expired, on_complete } => {
            let t = s.with_callbacks(s.callbacks.insert(env.id, on_complete));
            lemma_with_callbacks(s, t.callbacks);
            lemma_published(t, env, expired);
            let u = t.published(env, expired);
            lemma_with_callbacks(u, u.callbacks.remove(env.id));
        },
        Step::Retry { channel, env, expired, callback } => {
            lemma_retried(s, channel as int, env, expired);
            let u = s.retried(channel, env, expired, false);
            lemma_with_callbacks(u, u.callbacks.remove(env.id));
        },
        Step::TakeJob => {
            lemma_job_taken(s);
        },
        Step::Drain { channel, left } => {
            let i = channel as int;
            if s.drain_takes(i, left) {
                lemma_taken(s, i);
                lemma_processed(
                    s.with_channel(i, s.channels[i].polled()),
                    i,
                    s.channels[i].queue[0],
                );
            } else {
                lemma_drained(s, i);
            }
        },
        Step::Settle { flight, ack } => {
            lemma_settled(s, flight, ack);
        },
        Step::Pause => {
            lemma_accepting(s, false);
        },
        Step::Resume => {
            lemma_accepting(s, true);
        },
        Step::Halt => {
            lemma_halted(s);
        },
        Step::Sweep => {
            lemma_all_swept(s);
        },
    }
}

/// So does every run.
pub(crate) proof fn lemma_ran<C: Consumer, K>(s: BusView<C, K>, steps: Seq<Step<C, K>>)
    requires
        s.wf(),
        s.can_run(steps),
    ensures
        s.ran(steps).wf(),
    decreases steps.len(),
{
    if steps.len() > 0 {
        lemma_ran(s, steps.drop_last());
        lemma_after(s.ran(steps.drop_last()), steps.last());
    }
}

/// What offering an envelope to stage `k` makes of stage `i`.
pub(crate) proof fn lemma_enter_stage<C: Consumer, K>(
    s: BusView<C, K>,
    k: int,
    env: EnvelopeView,
    expired: bool,
    i: int,
)
    requires
        0 <= k < s.channels.len(),
        0 <= i < s.channels.len(),
    ensures
        ({
            let t = s.entered(k, env, expired);
            let d = t.channels[i];
            &&& t.channels.len() == s.channels.len()
            &&& t.index == s.index
            &&& t.dlq == s.dlq
            &&& t.callbacks == s.callbacks
            &&& t.running == s.running
            &&& d == if i == k {
                s.channels[i].offered(env, expired).with_permits(d.permits)
            } else {
                s.channels[i]
            }
        }),
{
}

/// What a dead letter of stage `k` makes of stage `i`.
pub(crate) proof fn lemma_bury_stage<C: Consumer, K>(
    s: BusView<C, K>,
    k: int,
    env: EnvelopeView,
    i: int,
)
    requires
        s.wf(),
        0 <= k < s.channels.len(),
        0 <= i < s.channels.len(),
    ensures
        ({
            let t = s.buried(k, env);
            let d = t.channels[i];
            let b = if i == k {
                s.channels[i].burying()
            } else {
                s.channels[i]
            };
            &&& t.channels.len() == s.channels.len()
            &&& t.index == s.index
            &&& t.dlq == s.dlq
            &&& t.callbacks == s.callbacks.remove(env.id)
            &&& t.running == s.running
            &&& d == if s.grave_of(k) == Some(i as usize) {
                b.offered(env, true).with_permits(d.permits)
            } else {
                b
            }
        }),
{
    assert(s.channels.len() <= usize::MAX);
}

/// How an offer moves the queue of a stage.
proof fn lemma_offer_flow<C>(c: ChannelView<C>, env: EnvelopeView, expired: bool)
    requires
        c.cfg.valid(),
    ensures
        ({
            let d = c.offered(env, expired);
            let n = c.evicting(expired);
            &&& 0 <= n <= c.queue.len()
            &&& c.cfg.backpressure != Backpressure::DropOldest ==> n == 0
            &&& n > 0 ==> c.offer_outcome(expired) is Accepted
            &&& d.name == c.name
            &&& d.cfg == c.cfg
            &&& d.consumers == c.consumers
            &&& d.rr == c.rr
            &&& d.attempts == c.attempts
            &&& if c.offer_outcome(expired) is Accepted {
                &&& d.queue == c.queue.skip(n) + seq![env]
                &&& d.queue.len() <= c.cfg.capacity
            } else {
                &&& d.queue == c.queue
                &&& d.queue == c.queue.skip(0) + Seq::empty()
            }
        }),
{
    let d = c.offered(env, expired);
    assert(c.queue.skip(0) + Seq::empty() =~= c.queue);
    if c.offer_outcome(expired) is Accepted {
        assert(d.queue =~= c.queue.skip(c.evicting(expired)) + seq![env]);
    }
}

/// A queue loses from the front and gains at the back. But for an eviction or
/// a sweep it loses only what a drain takes, and but for a retry it gains
/// nothing beyond its capacity. Nothing else of the stage changes but counts,
/// turns, attempts and consumers.
pub open spec fn flows<C: Consumer, K>(s: BusView<C, K>, step: Step<C, K>, i: int) -> bool {
    let c = s.channels[i];
    let d = s.after(step).channels[i];
    let n = s.departing(step, i);
    let arriving = s.arriving(step, i);
    &&& s.channels.len() <= s.after(step).channels.len()
    &&& d.name == c.name
    &&& d.cfg == c.cfg
    &&& 0 <= n <= c.queue.len()
    &&& d.queue == c.queue.skip(n) + arriving
    &&& s.takes(step, i) ==> n >= 1
    &&& c.cfg.backpressure != Backpressure::DropOldest && !s.sweeps(step, i) ==> n
        == if s.takes(step, i) {
        1int
    } else {
        0
    }
    &&& d.queue.len() <= c.queue.len() || d.queue.len() <= c.cfg.capacity || s.requeues(step, i)
    &&& n > 0 && !s.takes(step, i) && !s.sweeps(step, i) ==> arriving.len() > 0
    &&& !step.subscribes(c.name) ==> d.consumers == c.consumers
    &&& d.consumers.len() >= c.consumers.len()
    &&& !(step is Drain) ==> d.rr == c.rr
}

proof fn lemma_flow_publish<C: Consumer, K>(
    s: BusView<C, K>,
    env: EnvelopeView,
    expired: bool,
    i: int,
)
    requires
        s.wf(),
        0 <= i < s.channels.len(),
    ensures
        flows(s, Step::Publish { env, expired }, i),
{
    let c = s.channels[i];
    assert(s.stage_wf(i));
    assert(c.queue.skip(0) + Seq::empty() =~= c.queue);
    lemma_offer_flow(c, env.started(), expired);
    if s.refusal(env) is None {
        lemma_enter_stage(s, s.stage_of(env) as int, env.started(), expired, i);
    }
}

proof fn lemma_flow_callback<C: Consumer, K>(
    s: BusView<C, K>,
    env: EnvelopeView,
    expired: bool,
    on_complete: K,
    i: int,
)
    requires
        s.wf(),
        0 <= i < s.channels.len(),
    ensures
        flows(s, Step::PublishWithCallback { env, expired, on_complete }, i),
{
    let c = s.channels[i];
    assert(s.stage_wf(i));
    assert(c.queue.skip(0) + Seq::empty() =~= c.queue);
    lemma_offer_flow(c, env.started(), expired);
    let t = s.with_callbacks(s.callbacks.insert(env.id, on_complete));
    if s.refusal(env) is None {
        lemma_enter_stage(t, s.stage_of(env) as int, env.started(), expired, i);
    }
}

proof fn lemma_flow_retry<C: Consumer, K>(
    s: BusView<C, K>,
    channel: usize,
    env: EnvelopeView,
    expired: bool,
    callback: bool,
    i: int,
)
    requires
        s.wf(),
        s.waited_for(channel as int),
        0 <= i < s.channels.len(),
    ensures
        flows(s, Step::Retry { channel, env, expired, callback }, i),
{
    let c = s.channels[i];
    assert(s.stage_wf(i));
    assert(c.queue.skip(0) + Seq::empty() =~= c.queue);
    lemma_offer_flow(c.unparked(), env, expired);
    let t = s.with_channel(channel as int, s.channels[channel as int].unparked());
    lemma_enter_stage(t, channel as int, env, expired, i);
}

proof fn lemma_flow_drain<C: Consumer, K>(s: BusView<C, K>, channel: usize, left: usize, i: int)
    requires
        s.wf(),
        s.idle_drain(channel as int),
        0 <= i < s.channels.len(),
    ensures
        flows(s, Step::Drain { channel, left }, i),
{
    let k = channel as int;
    let c = s.channels[i];
    assert(s.stage_wf(i));
    assert(c.queue.skip(0) + Seq::empty() =~= c.queue);
    if s.drain_takes(k, left) {
        let env = s.channels[k].queue[0];
        let t = s.with_channel(k, s.channels[k].polled());
        lemma_taken(s, k);
        if s.channels[k].consumers.len() == 0 {
            let b = if i == k {
                t.channels[i].burying()
            } else {
                t.channels[i]
            };
            lemma_bury_stage(t, k, env, i);
            lemma_offer_flow(b, env, true);
            let n = b.evicting(true);
            if i == k && n >= 0 && n <= b.queue.len() {
                assert(c.queue.skip(1).skip(n) =~= c.queue.skip(n + 1));
            }
            assert(i == k ==> c.queue.skip(1) + Seq::empty() =~= c.queue.skip(1));
        } else {
            assert(i == k ==> c.queue.skip(1) + Seq::empty() =~= c.queue.skip(1));
        }
    }
}

proof fn lemma_flow_ack<C: Consumer, K>(s: BusView<C, K>, flight: FlightView<C>, i: int)
    requires
        s.wf(),
        s.flying(flight),
        0 <= i < s.channels.len(),
    ensures
        flows(s, Step::Settle { flight, ack: true }, i),
{
    let k = flight.channel as int;
    let c = s.channels[i];
    let env = flight.env;
    let t = s.with_channel(k, s.channels[k].acked().forgetting(env.id));
    let next = env.advanced();
    assert(s.stage_wf(i));
    assert(c.queue.skip(0) + Seq::empty() =~= c.queue);
    assert(t.channels[i].queue == c.queue);
    if env.slip.pending.len() > 0 && t.refusal(next) is None {
        assert(next.started() == next);
        assert(t.frame_wf());
        lemma_offer_flow(t.channels[i], next, false);
        lemma_enter_stage(t, t.stage_of(next) as int, next, false, i);
    }
}

proof fn lemma_flow_retry_nack<C: Consumer, K>(s: BusView<C, K>, flight: FlightView<C>, i: int)
    requires
        s.wf(),
        s.flying(flight),
        0 <= i < s.channels.len(),
        flight.attempt < s.channels[flight.channel as int].cfg.max_attempts,
    ensures
        flows(s, Step::Settle { flight, ack: false }, i),
{
    let c = s.channels[i];
    assert(s.stage_wf(i));
    assert(c.queue.skip(0) + Seq::empty() =~= c.queue);
    assert(c.queue.push(flight.env) =~= c.queue.skip(0) + seq![flight.env]);
}

proof fn lemma_flow_last_nack<C: Consumer, K>(s: BusView<C, K>, flight: FlightView<C>, i: int)
    requires
        s.wf(),
        s.flying(flight),
        0 <= i < s.channels.len(),
        flight.attempt >= s.channels[flight.channel as int].cfg.max_attempts,
    ensures
        flows(s, Step::Settle { flight, ack: false }, i),
{
    let k = flight.channel as int;
    let c = s.channels[i];
    let env = flight.env;
    let t = s.with_channel(k, s.channels[k].nacking().forgetting(env.id));
    let d = if i == k {
        t.channels[i].burying()
    } else {
        t.channels[i]
    };
    assert(s.stage_wf(i));
    assert(c.queue.skip(0) + Seq::empty() =~= c.queue);
    lemma_settled(s, flight, false);
    assert(t.grave_of(k) == s.grave_of(k));
    lemma_bury_stage(t, k, env, i);
    lemma_offer_flow(d, env, true);
}

pub(crate) proof fn lemma_flow<C: Consumer, K>(s: BusView<C, K>, step: Step<C, K>, i: int)
    requires
        s.wf(),
        s.allows(step),
        0 <= i < s.channels.len(),
    ensures
        flows(s, step, i),
{
    match step {
        Step::Publish { env, expired } => lemma_flow_publish(s, env, expired, i),
        Step::PublishWithCallback { env, expired, on_complete } => lemma_flow_callback(
            s,
            env,
            expired,
            on_complete,
            i,
        ),
        Step::Retry { channel, env, expired, callback } => lemma_flow_retry(
            s,
            channel,
            env,
            expired,
            callback,
            i,
        ),
        Step::Drain { channel, left } => lemma_flow_drain(s, channel, left, i),
        Step::Settle { flight, ack } => {
            if ack {
                lemma_flow_ack(s, flight, i);
            } else if flight.attempt < s.channels[flight.channel as int].cfg.max_attempts {
                lemma_flow_retry_nack(s, flight, i);
            } else {
                lemma_flow_last_nack(s, flight, i);
            }
        },
        _ => {
            assert(s.stage_wf(i));
            let q = s.channels[i].queue;
            assert(q.skip(0) + Seq::empty() =~= q);
            assert(q.skip(q.len() as int) + Seq::empty() =~= Seq::<EnvelopeView>::empty());
        },
    }
}

/// A drain that takes an envelope from a stage with consumers hands it to
/// those whose turn it is, and the turn passes on. No other step does.
pub(crate) proof fn lemma_handing<C: Consumer, K>(s: BusView<C, K>, step: Step<C, K>, i: int)
    requires
        s.wf(),
        s.allows(step),
        0 <= i < s.channels.len(),
        s.channels[i].consumers.len() > 0,
    ensures
        ({
            let c = s.channels[i];
            let d = s.after(step).channels[i];
            let handing = s.handing(step, i);
            if s.takes(step, i) {
                &&& handing.len() == 1
                &&& handing[0].env == c.queue[0]
                &&& handing[0].channel == i
                &&& handing[0].consumers == c.selected()
                &&& d.rr == c.turned().rr
            } else {
                &&& handing.len() == 0
                &&& d.rr == c.rr
            }
        }),
{
    lemma_flow(s, step, i);
    match step {
        Step::Drain { channel, left } => {
            let k = channel as int;
            if s.drain_takes(k, left) && s.channels[k].consumers.len() == 0 {
                let env = s.channels[k].queue[0];
                let t = s.with_channel(k, s.channels[k].polled());
                lemma_taken(s, k);
                lemma_bury_stage(t, k, env, i);
                assert(t.stage_wf(i));
                lemma_offer_flow(t.channels[i], env, true);
            }
        },
        _ => {},
    }
}

} // verus!
