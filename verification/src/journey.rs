//! The journey of one envelope through the bus, from the call that publishes
//! it, whatever else the bus carries meanwhile.
//!
//! The envelope is known by its id. While it is under way nobody publishes
//! another one under that id, and consumers leave the ids of envelopes alone.

use crate::config::{at_least_one, ChannelConfig};
use crate::consumer::Consumer;
use crate::envelope::EnvelopeView;
use crate::invariants::{lemma_settled, lemma_taken};
use crate::runs::{
    lemma_after, lemma_bury_stage, lemma_enter_stage, lemma_flow, lemma_ran, Step,
};
use crate::state::{BusView, FlightView, ProcessView, PublishView, SettledView};
use vstd::prelude::*;

verus! {

/// Where the envelope is.
#[verifier::reject_recursive_types(C)]
pub enum Place<C> {
    /// It is in no queue, and in nobody's hands.
    Gone,
    /// It is in the queue of a stage, behind `at` others.
    Queued { channel: usize, at: int },
    /// A worker has it, for the consumers of a stage.
    Flying(FlightView<C>),
    /// A producer or a worker has it, and waits for room in a stage.
    Parked { channel: usize, env: EnvelopeView, callback: bool },
}

#[verifier::ext_equal]
#[verifier::reject_recursive_types(C)]
pub struct Journey<C> {
    pub place: Place<C>,
    /// Deliveries made at the stage where it is, since it was let in there.
    pub deliveries: nat,
    /// Deliveries made in all.
    pub received: nat,
    /// Hops that were acked.
    pub acks: nat,
    /// Deliveries that were nacked.
    pub nacks: nat,
    /// Hops of its slip, past and to come. Consumers may add some or take some
    /// away.
    pub hops: int,
    /// It became a dead letter.
    pub dead: bool,
    /// It was turned away, or dropped from a queue.
    pub lost: bool,
    /// How often its callback was handed out.
    pub calls: nat,
}

/// Deliveries that a stage makes of an envelope that is always nacked.
pub open spec fn attempts_allowed(cfg: ChannelConfig) -> int {
    at_least_one(cfg.max_attempts as int)
}

impl<C: Consumer, K> BusView<C, K> {
    /// Nothing queued has that id.
    pub open spec fn absent(self, id: Seq<char>) -> bool {
        forall|i: int, a: int|
            0 <= i < self.channels.len() && 0 <= a < self.channels[i].queue.len() ==> (
            #[trigger] self.channels[i].queue[a]).id != id
    }

    /// Nothing queued has that id, and no stage remembers attempts of one that
    /// had it. (A stage does remember those of an envelope that was dropped
    /// between two attempts.)
    pub open spec fn unknown(self, id: Seq<char>) -> bool {
        &&& self.absent(id)
        &&& forall|i: int|
            0 <= i < self.channels.len() ==> !(#[trigger] self.channels[i]).attempts.contains_key(id)
    }

    /// What becomes of an envelope that the step publishes.
    pub open spec fn published_as(self, step: Step<C, K>) -> PublishView {
        match step {
            Step::PublishWithCallback { env, expired, .. } => self.publish_outcome(
                env,
                expired,
                true,
            ),
            Step::Publish { env, expired } => self.publish_outcome(env, expired, false),
            _ => PublishView::Accepted,
        }
    }

    /// The journey of `env` begins as the step publishes it.
    pub open spec fn begun(self, step: Step<C, K>, env: EnvelopeView) -> Journey<C> {
        Journey {
            place: match self.published_as(step) {
                PublishView::Accepted => Place::Queued {
                    channel: self.stage_of(env),
                    at: self.after(step).channels[self.stage_of(env) as int].queue.len() - 1,
                },
                PublishView::Refused(_) => Place::Gone,
                PublishView::Parked { channel, env, callback } => Place::Parked {
                    channel,
                    env,
                    callback,
                },
            },
            deliveries: 0,
            received: 0,
            acks: 0,
            nacks: 0,
            hops: 1 + env.started().slip.pending.len() as int,
            dead: false,
            lost: self.published_as(step) is Refused,
            calls: 0,
        }
    }
}

impl<C: Consumer> Journey<C> {
    /// The step leaves the envelope to those who have it: only they try again
    /// with it or settle it, and nobody publishes another one under its id.
    pub open spec fn fits<K>(self, step: Step<C, K>, id: Seq<char>) -> bool {
        match step {
            Step::Publish { env, .. } => env.id != id,
            Step::PublishWithCallback { env, .. } => env.id != id,
            Step::Retry { channel, env, callback, .. } => env.id == id ==> self.place
                == (Place::<C>::Parked { channel, env, callback }),
            Step::Settle { flight, .. } => flight.env.id == id ==> {
                &&& self.place matches Place::Flying(f)
                &&& flight == (FlightView { env: flight.env, ..f })
            },
            _ => true,
        }
    }

    /// The step is a drain that takes the envelope.
    pub open spec fn taken<K>(self, s: BusView<C, K>, step: Step<C, K>) -> bool {
        self.place matches Place::Queued { channel, at } && at == 0 && s.takes(step, channel as int)
    }

    /// Where the envelope is after the step.
    pub open spec fn place_after<K>(self, s: BusView<C, K>, step: Step<C, K>, id: Seq<char>) -> Place<
        C,
    > {
        let arrived = match s.arrival(step) {
            Some((_, env)) => env.id == id,
            None => false,
        };
        if arrived {
            let channel = s.arrival(step).unwrap().0;
            Place::Queued { channel, at: s.after(step).channels[channel as int].queue.len() - 1 }
        } else {
            match self.place {
                Place::Gone => Place::Gone,
                Place::Queued { channel, at } => {
                    let n = s.departing(step, channel as int);
                    if at >= n {
                        Place::Queued { channel, at: at - n }
                    } else if self.taken(s, step) {
                        match s.drain_outcome(channel) {
                            ProcessView::Deliver(flight) => Place::Flying(flight),
                            ProcessView::DeadLettered(_) => Place::Gone,
                        }
                    } else {
                        Place::Gone
                    }
                },
                Place::Flying(_) => match step {
                    Step::Settle { flight, ack } => if flight.env.id == id {
                        match s.settle_outcome(flight, ack) {
                            SettledView::Forwarded {
                                outcome: PublishView::Parked { channel, env, callback },
                                ..
                            } => Place::Parked { channel, env, callback },
                            _ => Place::Gone,
                        }
                    } else {
                        self.place
                    },
                    _ => self.place,
                },
                Place::Parked { .. } => match step {
                    Step::Retry { channel, env, expired, callback } => if env.id == id
                        && !(s.retry_outcome(channel, env, expired, callback) is Parked) {
                        Place::Gone
                    } else {
                        self.place
                    },
                    _ => self.place,
                },
            }
        }
    }

    /// The step ends the journey in order: the last hop is acked, or the
    /// envelope is a dead letter that nobody takes.
    pub open spec fn ends<K>(self, s: BusView<C, K>, step: Step<C, K>, id: Seq<char>) -> bool {
        match step {
            Step::Drain { .. } => self.taken(s, step),
            Step::Settle { flight, ack } => flight.env.id == id && !(s.settle_outcome(
                flight,
                ack,
            ) is Forwarded),
            _ => false,
        }
    }

    /// The journey after the step.
    pub open spec fn after<K>(self, s: BusView<C, K>, step: Step<C, K>, id: Seq<char>) -> Journey<C> {
        let place = self.place_after(s, step, id);
        let moved = Journey {
            place,
            lost: self.lost || (place is Gone && !(self.place is Gone) && !self.ends(s, step, id)),
            ..self
        };
        match step {
            Step::Drain { .. } => if self.taken(s, step) {
                if moved.place is Flying {
                    Journey {
                        deliveries: self.deliveries + 1,
                        received: self.received + 1,
                        ..moved
                    }
                } else {
                    Journey { deliveries: 0, dead: true, ..moved }
                }
            } else {
                moved
            },
            Step::Retry { env, .. } => if env.id == id {
                Journey { deliveries: 0, ..moved }
            } else {
                moved
            },
            Step::Settle { flight, ack } => if flight.env.id == id {
                let outcome = s.settle_outcome(flight, ack);
                Journey {
                    deliveries: if outcome is Requeued {
                        self.deliveries
                    } else {
                        0
                    },
                    acks: if ack {
                        self.acks + 1
                    } else {
                        self.acks
                    },
                    nacks: if ack {
                        self.nacks
                    } else {
                        self.nacks + 1
                    },
                    hops: self.hops + flight.env.slip.pending.len()
                        - self.place->Flying_0.env.slip.pending.len(),
                    dead: self.dead || outcome is DeadLettered,
                    calls: if outcome is Completed {
                        self.calls + 1
                    } else {
                        self.calls
                    },
                    ..moved
                }
            } else {
                moved
            },
            _ => moved,
        }
    }

    /// The journey after a run of steps.
    pub open spec fn ran<K>(
        self,
        s: BusView<C, K>,
        steps: Seq<Step<C, K>>,
        id: Seq<char>,
    ) -> Journey<C>
        decreases steps.len(),
    {
        if steps.len() == 0 {
            self
        } else {
            self.ran(s, steps.drop_last(), id).after(s.ran(steps.drop_last()), steps.last(), id)
        }
    }

    /// Each step of the run leaves the envelope to those who have it.
    pub open spec fn fits_all<K>(
        self,
        s: BusView<C, K>,
        steps: Seq<Step<C, K>>,
        id: Seq<char>,
    ) -> bool
        decreases steps.len(),
    {
        steps.len() == 0 || (self.fits_all(s, steps.drop_last(), id) && self.ran(
            s,
            steps.drop_last(),
            id,
        ).fits(steps.last(), id))
    }

    // -- what holds of a journey at all times --------------------------------

    /// The envelope is where the journey says, and nowhere else.
    pub open spec fn placed<K>(self, s: BusView<C, K>, id: Seq<char>) -> bool {
        &&& forall|i: int, a: int|
            0 <= i < s.channels.len() && 0 <= a < s.channels[i].queue.len() ==> ((
            #[trigger] s.channels[i].queue[a]).id == id <==> self.is_at(i, a))
        &&& match self.place {
            Place::Gone => true,
            Place::Queued { channel, at } => {
                &&& channel < s.channels.len()
                &&& 0 <= at < s.channels[channel as int].queue.len()
            },
            Place::Flying(flight) => flight.env.id == id && flight.channel < s.channels.len(),
            Place::Parked { channel, env, .. } => env.id == id && channel < s.channels.len(),
        }
    }

    /// It is in the queue of stage `i`, behind `a` others.
    pub open spec fn is_at(self, i: int, a: int) -> bool {
        self.place matches Place::Queued { channel, at } && channel == i && at == a
    }

    /// It is queued at stage `i`, or with its consumers.
    pub open spec fn is_within(self, i: int) -> bool {
        match self.place {
            Place::Queued { channel, .. } => channel == i,
            Place::Flying(flight) => flight.channel == i,
            _ => false,
        }
    }

    /// The envelope itself.
    pub open spec fn env<K>(self, s: BusView<C, K>) -> Option<EnvelopeView> {
        match self.place {
            Place::Gone => None,
            Place::Queued { channel, at } => Some(s.channels[channel as int].queue[at]),
            Place::Flying(flight) => Some(flight.env),
            Place::Parked { env, .. } => Some(env),
        }
    }

    /// The hop being visited, those acked and those pending make up the slip;
    /// each delivery ends with one ack or one nack; and the envelope is gone
    /// only when it is done, dead or lost.
    pub open spec fn on_course<K>(self, s: BusView<C, K>) -> bool {
        &&& self.env(s) matches Some(env) ==> self.acks + 1 + env.slip.pending.len() == self.hops
        &&& self.received == self.acks + self.nacks + if self.place is Flying {
            1int
        } else {
            0
        }
        &&& self.place is Gone ==> self.lost || self.dead || self.acks == self.hops
        &&& self.lost ==> self.place is Gone
    }

    /// Its deliveries are the attempts that the stage remembers.
    pub open spec fn numbered<K>(self, s: BusView<C, K>, id: Seq<char>) -> bool {
        &&& !(self.place is Gone) ==> forall|i: int|
            0 <= i < s.channels.len() && !self.is_within(i) ==> !(
            #[trigger] s.channels[i]).attempts.contains_key(id)
        &&& match self.place {
            Place::Queued { channel, .. } => {
                let c = s.channels[channel as int];
                &&& self.deliveries < attempts_allowed(c.cfg)
                &&& c.attempts.contains_key(id) == (self.deliveries > 0)
                &&& self.deliveries > 0 ==> c.attempts[id] == self.deliveries && c.consumers.len() > 0
            },
            Place::Flying(flight) => {
                let c = s.channels[flight.channel as int];
                &&& 1 <= self.deliveries <= attempts_allowed(c.cfg)
                &&& flight.attempt == self.deliveries
                &&& c.consumers.len() > 0
                &&& c.attempts.contains_key(id) == c.tracks_attempts()
                &&& c.tracks_attempts() ==> c.attempts[id] == self.deliveries
            },
            _ => true,
        }
    }

    /// Its callback is handed out at most once, when all its hops are acked,
    /// and not kept after that, nor for a dead letter.
    pub open spec fn heard<K>(self, s: BusView<C, K>, id: Seq<char>) -> bool {
        &&& self.calls <= 1
        &&& self.calls == 1 ==> self.place is Gone && self.acks == self.hops && !self.dead
        &&& self.calls == 1 || self.dead ==> !s.callbacks.contains_key(id)
    }

    /// What holds of every journey. Where no stage remembered the id when it
    /// began, its deliveries are numbered as well.
    pub open spec fn told<K>(self, s: BusView<C, K>, id: Seq<char>) -> bool {
        &&& self.placed(s, id)
        &&& self.on_course(s)
        &&& self.heard(s, id)
    }
}

/// What arrives somewhere was in the hands of someone, or taken from a queue.
proof fn lemma_arrival<C: Consumer, K>(
    s: BusView<C, K>,
    j: Journey<C>,
    step: Step<C, K>,
    id: Seq<char>,
)
    requires
        s.wf(),
        s.allows(step),
        j.placed(s, id),
        j.fits(step, id),
    ensures
        s.arrival(step) matches Some((channel, env)) ==> {
            &&& channel < s.channels.len()
            &&& env.id == id ==> j.place is Parked || j.place is Flying || j.taken(s, step)
        },
{
    match step {
        Step::Settle { flight, ack } => {
            assert(s.frame_wf());
            assert(s.stage_wf(flight.channel as int));
        },
        Step::Drain { channel, left } => {
            assert(s.frame_wf());
            if s.drain_takes(channel as int, left) {
                assert(s.channels[channel as int].queue[0].id == id <==> j.is_at(
                    channel as int,
                    0,
                ));
            }
        },
        _ => {
            assert(s.frame_wf());
        },
    }
}

/// A stage that is new has an empty queue, and remembers nothing.
proof fn lemma_new_stage<C: Consumer, K>(s: BusView<C, K>, step: Step<C, K>, i: int)
    requires
        s.wf(),
        s.allows(step),
        s.channels.len() <= i < s.after(step).channels.len(),
    ensures
        s.after(step).channels[i].queue.len() == 0,
        s.after(step).channels[i].attempts == Map::<Seq<char>, u32>::empty(),
{
    match step {
        Step::Register { .. } => {},
        Step::Subscribe { .. } => {},
        Step::DeadLetters { .. } => {},
        Step::Publish { env, expired } => {
            if s.refusal(env) is None {
                let k = s.stage_of(env) as int;
                lemma_enter_stage(s, k, env.started(), expired, k);
            }
        },
        Step::PublishWithCallback { env, expired, on_complete } => {
            let t = s.with_callbacks(s.callbacks.insert(env.id, on_complete));
            if t.refusal(env) is None {
                let k = t.stage_of(env) as int;
                lemma_enter_stage(t, k, env.started(), expired, k);
            }
        },
        Step::Retry { channel, env, expired, callback } => {
            let k = channel as int;
            let t = s.with_channel(k, s.channels[k].unparked());
            lemma_enter_stage(t, k, env, expired, k);
        },
        Step::Drain { channel, left } => {
            let k = channel as int;
            if s.drain_takes(k, left) && s.channels[k].consumers.len() == 0 {
                let t = s.with_channel(k, s.channels[k].polled());
                lemma_taken(s, k);
                lemma_bury_stage(t, k, s.channels[k].queue[0], k);
            }
        },
        Step::Settle { flight, ack } => {
            lemma_settle_stage(s, flight, ack, flight.channel as int);
        },
        _ => {},
    }
}

/// What settling an envelope makes of stage `i`.
proof fn lemma_settle_stage<C: Consumer, K>(
    s: BusView<C, K>,
    flight: FlightView<C>,
    ack: bool,
    i: int,
)
    requires
        s.wf(),
        s.flying(flight),
        0 <= i < s.channels.len(),
    ensures
        s.settled(flight, ack).channels.len() == s.channels.len(),
        s.settled(flight, ack).channels[i].attempts == if i == flight.channel
            && s.channels[i].tracks_attempts() && !(s.settle_outcome(flight, ack) is Requeued) {
            s.channels[i].attempts.remove(flight.env.id)
        } else {
            s.channels[i].attempts
        },
        s.settled(flight, ack).callbacks == match s.settle_outcome(flight, ack) {
            SettledView::Completed(_, _) => s.callbacks.remove(flight.env.id),
            SettledView::Finished => s.callbacks.remove(flight.env.id),
            SettledView::DeadLettered => s.callbacks.remove(flight.env.id),
            _ => s.callbacks,
        },
{
    let k = flight.channel as int;
    let env = flight.env;
    let b = s.channels[k];
    if ack {
        let t = s.with_channel(k, b.acked().forgetting(env.id));
        let next = env.advanced();
        if env.slip.pending.len() > 0 && t.refusal(next) is None {
            assert(t.frame_wf());
            lemma_enter_stage(t, t.stage_of(next) as int, next.started(), false, i);
        }
    } else if flight.attempt >= b.cfg.max_attempts {
        let t = s.with_channel(k, b.nacking().forgetting(env.id));
        lemma_settled(s, flight, false);
        lemma_bury_stage(t, k, env, i);
    }
}

/// Who is at one place of one queue.
proof fn lemma_placed_at<C: Consumer, K>(
    s: BusView<C, K>,
    j: Journey<C>,
    step: Step<C, K>,
    id: Seq<char>,
    i: int,
    a: int,
)
    requires
        s.wf(),
        s.allows(step),
        j.placed(s, id),
        j.fits(step, id),
        0 <= i < s.after(step).channels.len(),
        0 <= a < s.after(step).channels[i].queue.len(),
    ensures
        s.after(step).channels[i].queue[a].id == id <==> j.after(s, step, id).is_at(i, a),
{
    let t = s.after(step);
    let k = j.after(s, step, id);
    assert(k.place == j.place_after(s, step, id));
    lemma_arrival(s, j, step, id);
    if i >= s.channels.len() {
        lemma_new_stage(s, step, i);
    } else {
        lemma_flow(s, step, i);
        let q = s.channels[i].queue;
        let n = s.departing(step, i);
        match j.place {
            Place::Queued { channel, .. } => {
                lemma_flow(s, step, channel as int);
            },
            _ => {},
        }
        if a < q.len() - n {
            assert(t.channels[i].queue[a] == q[a + n]);
            assert(q[a + n].id == id <==> j.is_at(i, a + n));
        } else {
            assert(t.channels[i].queue[a] == s.arriving(step, i)[0]);
        }
    }
}

/// The envelope stays where the journey says.
proof fn lemma_placed<C: Consumer, K>(
    s: BusView<C, K>,
    j: Journey<C>,
    step: Step<C, K>,
    id: Seq<char>,
)
    requires
        s.wf(),
        s.allows(step),
        j.placed(s, id),
        j.fits(step, id),
    ensures
        j.after(s, step, id).placed(s.after(step), id),
{
    let t = s.after(step);
    let k = j.after(s, step, id);
    lemma_after(s, step);
    assert(k.place == j.place_after(s, step, id));
    assert(s.channels.len() <= t.channels.len()) by {
        if s.channels.len() > 0 {
            lemma_flow(s, step, 0);
        }
    }
    lemma_arrival(s, j, step, id);
    assert forall|i: int, a: int|
        0 <= i < t.channels.len() && 0 <= a < t.channels[i].queue.len() implies ((
    #[trigger] t.channels[i].queue[a]).id == id <==> k.is_at(i, a)) by {
        lemma_placed_at(s, j, step, id, i, a);
    }
    match j.place {
        Place::Queued { channel, at } => {
            lemma_flow(s, step, channel as int);
        },
        _ => {},
    }
}

/// The slip stays on course.
proof fn lemma_on_course<C: Consumer, K>(
    s: BusView<C, K>,
    j: Journey<C>,
    step: Step<C, K>,
    id: Seq<char>,
)
    requires
        s.wf(),
        s.allows(step),
        j.placed(s, id),
        j.on_course(s),
        j.fits(step, id),
    ensures
        j.after(s, step, id).on_course(s.after(step)),
{
    let t = s.after(step);
    let k = j.after(s, step, id);
    assert(k.place == j.place_after(s, step, id));
    lemma_arrival(s, j, step, id);
    match s.arrival(step) {
        Some((channel, env)) => {
            lemma_flow(s, step, channel as int);
            let r = t.channels[channel as int].queue;
            assert(r[r.len() - 1] == env);
        },
        None => {},
    }
    match j.place {
        Place::Queued { channel, at } => {
            lemma_flow(s, step, channel as int);
            let n = s.departing(step, channel as int);
            if at >= n {
                assert(t.channels[channel as int].queue[at - n]
                    == s.channels[channel as int].queue[at]);
            }
        },
        _ => {},
    }
}

/// What a stage remembers after a drain.
proof fn lemma_drain_attempts<C: Consumer, K>(
    s: BusView<C, K>,
    channel: usize,
    left: usize,
    i: int,
)
    requires
        s.wf(),
        s.idle_drain(channel as int),
        0 <= i < s.channels.len(),
    ensures
        s.after(Step::Drain { channel, left }).channels[i].attempts == ({
            let c = s.channels[i];
            if s.takes(Step::Drain { channel, left }, i) && c.consumers.len() > 0
                && c.tracks_attempts() {
                c.attempts.insert(c.queue[0].id, c.next_attempt(c.queue[0].id))
            } else {
                c.attempts
            }
        }),
{
    let k = channel as int;
    if s.drain_takes(k, left) && s.channels[k].consumers.len() == 0 {
        let t = s.with_channel(k, s.channels[k].polled());
        lemma_taken(s, k);
        lemma_bury_stage(t, k, s.channels[k].queue[0], i);
    }
}

/// What a stage remembers after a step: a drain that takes an envelope numbers
/// its attempt, and settling one forgets it, but for a retry.
proof fn lemma_attempts<C: Consumer, K>(s: BusView<C, K>, step: Step<C, K>, i: int)
    requires
        s.wf(),
        s.allows(step),
        0 <= i < s.channels.len(),
    ensures
        s.after(step).channels[i].attempts == ({
            let c = s.channels[i];
            match step {
                Step::Drain { .. } => if s.takes(step, i) && c.consumers.len() > 0
                    && c.tracks_attempts() {
                    c.attempts.insert(c.queue[0].id, c.next_attempt(c.queue[0].id))
                } else {
                    c.attempts
                },
                Step::Settle { flight, ack } => if i == flight.channel && c.tracks_attempts() && !(
                s.settle_outcome(flight, ack) is Requeued) {
                    c.attempts.remove(flight.env.id)
                } else {
                    c.attempts
                },
                _ => c.attempts,
            }
        }),
{
    match step {
        Step::Publish { env, expired } => {
            if s.refusal(env) is None {
                lemma_enter_stage(s, s.stage_of(env) as int, env.started(), expired, i);
            }
        },
        Step::PublishWithCallback { env, expired, on_complete } => {
            let t = s.with_callbacks(s.callbacks.insert(env.id, on_complete));
            if t.refusal(env) is None {
                lemma_enter_stage(t, t.stage_of(env) as int, env.started(), expired, i);
            }
        },
        Step::Retry { channel, env, expired, callback } => {
            let k = channel as int;
            let t = s.with_channel(k, s.channels[k].unparked());
            lemma_enter_stage(t, k, env, expired, i);
        },
        Step::Drain { channel, left } => {
            lemma_drain_attempts(s, channel, left, i);
        },
        Step::Settle { flight, ack } => {
            lemma_settle_stage(s, flight, ack, i);
        },
        _ => {},
    }
}

/// No stage but the one where the envelope is remembers it.
proof fn lemma_remembered<C: Consumer, K>(
    s: BusView<C, K>,
    j: Journey<C>,
    step: Step<C, K>,
    id: Seq<char>,
    i: int,
)
    requires
        s.wf(),
        s.allows(step),
        j.placed(s, id),
        j.numbered(s, id),
        j.fits(step, id),
        !(j.place is Gone),
        0 <= i < s.channels.len(),
    ensures
        !j.is_within(i) ==> !s.after(step).channels[i].attempts.contains_key(id),
        j.is_within(i) && !j.taken(s, step) && !(step matches Step::Settle { flight, .. }
            && flight.env.id == id) ==> {
            &&& s.after(step).channels[i].attempts.contains_key(id)
                == s.channels[i].attempts.contains_key(id)
            &&& s.after(step).channels[i].attempts[id] == s.channels[i].attempts[id]
        },
{
    lemma_attempts(s, step, i);
    match step {
        Step::Drain { .. } => {
            if s.takes(step, i) {
                assert(s.channels[i].queue[0].id == id <==> j.is_at(i, 0));
            }
        },
        _ => {},
    }
}

/// The deliveries stay the attempts that the stage remembers.
proof fn lemma_numbered<C: Consumer, K>(
    s: BusView<C, K>,
    j: Journey<C>,
    step: Step<C, K>,
    id: Seq<char>,
)
    requires
        s.wf(),
        s.allows(step),
        j.placed(s, id),
        j.numbered(s, id),
        j.fits(step, id),
    ensures
        j.after(s, step, id).numbered(s.after(step), id),
{
    let t = s.after(step);
    let k = j.after(s, step, id);
    assert(k.place == j.place_after(s, step, id));
    lemma_arrival(s, j, step, id);
    lemma_placed(s, j, step, id);
    if !(k.place is Gone) {
        assert(!(j.place is Gone));
        assert forall|i: int| 0 <= i < t.channels.len() && !k.is_within(i) implies !(
        #[trigger] t.channels[i]).attempts.contains_key(id) by {
            if i < s.channels.len() {
                lemma_remembered(s, j, step, id, i);
                lemma_attempts(s, step, i);
            } else {
                lemma_new_stage(s, step, i);
            }
        }
        match k.place {
            Place::Queued { channel, .. } => {
                let i = channel as int;
                if i < s.channels.len() {
                    lemma_flow(s, step, i);
                    lemma_remembered(s, j, step, id, i);
                    lemma_attempts(s, step, i);
                } else {
                    lemma_new_stage(s, step, i);
                }
            },
            Place::Flying(flight) => {
                let i = flight.channel as int;
                lemma_flow(s, step, i);
                lemma_remembered(s, j, step, id, i);
                lemma_attempts(s, step, i);
            },
            _ => {},
        }
    }
}

/// No step adds a callback for the envelope, and none is left where it was
/// handed out or the envelope became a dead letter. One that is kept goes only
/// then, or when the envelope is lost.
proof fn lemma_callbacks<C: Consumer, K>(
    s: BusView<C, K>,
    j: Journey<C>,
    step: Step<C, K>,
    id: Seq<char>,
)
    requires
        s.wf(),
        s.allows(step),
        j.placed(s, id),
        j.fits(step, id),
    ensures
        s.after(step).callbacks.contains_key(id) ==> s.callbacks.contains_key(id) && s.after(
            step,
        ).callbacks[id] == s.callbacks[id],
        j.after(s, step, id).dead && !j.dead ==> !s.after(step).callbacks.contains_key(id),
        j.after(s, step, id).calls > j.calls ==> {
            &&& s.callbacks.contains_key(id)
            &&& !s.after(step).callbacks.contains_key(id)
        },
        s.callbacks.contains_key(id) && !j.after(s, step, id).dead && !j.after(s, step, id).lost
            && j.after(s, step, id).calls == j.calls ==> {
            &&& s.after(step).callbacks.contains_key(id)
            &&& !(j.place is Gone) ==> !(j.after(s, step, id).place is Gone)
        },
{
    lemma_arrival(s, j, step, id);
    match step {
        Step::Publish { env, expired } => {
            if s.refusal(env) is None {
                let k = s.stage_of(env) as int;
                lemma_enter_stage(s, k, env.started(), expired, k);
            }
        },
        Step::PublishWithCallback { env, expired, on_complete } => {
            let t = s.with_callbacks(s.callbacks.insert(env.id, on_complete));
            if t.refusal(env) is None {
                let k = t.stage_of(env) as int;
                lemma_enter_stage(t, k, env.started(), expired, k);
            }
        },
        Step::Retry { channel, env, expired, callback } => {
            let k = channel as int;
            let t = s.with_channel(k, s.channels[k].unparked());
            lemma_enter_stage(t, k, env, expired, k);
        },
        Step::Drain { channel, left } => {
            let k = channel as int;
            if s.drain_takes(k, left) && s.channels[k].consumers.len() == 0 {
                let t = s.with_channel(k, s.channels[k].polled());
                lemma_taken(s, k);
                lemma_bury_stage(t, k, s.channels[k].queue[0], k);
                assert(s.channels[k].queue[0].id == id <==> j.is_at(k, 0));
            }
            if j.taken(s, step) {
                assert(j.is_at(k, 0));
                lemma_flow(s, step, k);
            }
        },
        Step::Settle { flight, ack } => {
            lemma_settle_stage(s, flight, ack, flight.channel as int);
        },
        _ => {},
    }
}

/// The callback stays as it should.
proof fn lemma_heard<C: Consumer, K>(
    s: BusView<C, K>,
    j: Journey<C>,
    step: Step<C, K>,
    id: Seq<char>,
)
    requires
        s.wf(),
        s.allows(step),
        j.told(s, id),
        j.fits(step, id),
    ensures
        j.after(s, step, id).heard(s.after(step), id),
{
    let k = j.after(s, step, id);
    assert(k.place == j.place_after(s, step, id));
    lemma_arrival(s, j, step, id);
    lemma_callbacks(s, j, step, id);
}

/// A journey goes on as it should, step by step.
pub(crate) proof fn lemma_journey<C: Consumer, K>(
    s: BusView<C, K>,
    j: Journey<C>,
    steps: Seq<Step<C, K>>,
    id: Seq<char>,
)
    requires
        s.wf(),
        s.can_run(steps),
        j.told(s, id),
        j.fits_all(s, steps, id),
    ensures
        j.ran(s, steps, id).told(s.ran(steps), id),
        j.numbered(s, id) ==> j.ran(s, steps, id).numbered(s.ran(steps), id),
        s.ran(steps).callbacks.contains_key(id) ==> s.callbacks.contains_key(id) && s.ran(
            steps,
        ).callbacks[id] == s.callbacks[id],
        !s.callbacks.contains_key(id) ==> j.ran(s, steps, id).calls == j.calls,
        s.callbacks.contains_key(id) && !j.ran(s, steps, id).dead && !j.ran(s, steps, id).lost
            && j.ran(s, steps, id).calls == j.calls ==> {
            &&& s.ran(steps).callbacks.contains_key(id)
            &&& !(j.place is Gone) ==> !(j.ran(s, steps, id).place is Gone)
        },
        j.calls <= j.ran(s, steps, id).calls,
        j.place is Gone ==> j.ran(s, steps, id) == j,
    decreases steps.len(),
{
    if steps.len() > 0 {
        let before = steps.drop_last();
        let step = steps.last();
        let t = s.ran(before);
        let k = j.ran(s, before, id);
        lemma_journey(s, j, before, id);
        lemma_ran(s, before);
        lemma_placed(t, k, step, id);
        lemma_on_course(t, k, step, id);
        if j.numbered(s, id) {
            lemma_numbered(t, k, step, id);
        }
        lemma_heard(t, k, step, id);
        lemma_callbacks(t, k, step, id);
        lemma_arrival(t, k, step, id);
    }
}

/// A journey begins as it should.
pub(crate) proof fn lemma_begun<C: Consumer, K>(
    s: BusView<C, K>,
    step: Step<C, K>,
    env: EnvelopeView,
)
    requires
        s.wf(),
        s.absent(env.id),
        step.publishes(env),
    ensures
        s.after(step).wf(),
        s.begun(step, env).told(s.after(step), env.id),
        s.unknown(env.id) ==> s.begun(step, env).numbered(s.after(step), env.id),
{
    let t = s.after(step);
    let j = s.begun(step, env);
    lemma_after(s, step);
    assert(s.frame_wf());
    assert(t.channels.len() == s.channels.len()) by {
        if t.channels.len() > s.channels.len() {
            lemma_new_stage(s, step, s.channels.len() as int);
        }
        if s.channels.len() > 0 {
            lemma_flow(s, step, 0);
        }
    }
    assert forall|i: int, a: int|
        0 <= i < t.channels.len() && 0 <= a < t.channels[i].queue.len() implies ((
    #[trigger] t.channels[i].queue[a]).id == env.id <==> j.is_at(i, a)) by {
        lemma_flow(s, step, i);
        let q = s.channels[i].queue;
        let n = s.departing(step, i);
        if a < q.len() - n {
            assert(t.channels[i].queue[a] == q[a + n]);
        } else {
            assert(t.channels[i].queue[a] == s.arriving(step, i)[0]);
        }
    }
    if s.unknown(env.id) {
        assert forall|i: int| 0 <= i < t.channels.len() implies !(
        #[trigger] t.channels[i]).attempts.contains_key(env.id) by {
            lemma_attempts(s, step, i);
            assert(!s.channels[i].attempts.contains_key(env.id));
        }
    }
    if j.place is Queued {
        let i = s.stage_of(env) as int;
        lemma_flow(s, step, i);
        let r = t.channels[i].queue;
        assert(r[r.len() - 1] == env.started());
    }
}

} // verus!
