//! What the bus promises as a whole.
//!
//! Each law is stated over the states and outcomes that the contracts of the
//! executable functions speak of.

use crate::channel::{counted, ChannelView, Stats};
use crate::config::{Backpressure, ChannelConfig, Delivery, FORWARD_TIMEOUT_SECS};
use crate::consumer::Consumer;
use crate::envelope::{itinerary, EnvelopeView, RouteView, SlipView, OP};
use crate::effects::law_publish_with_callback;
use crate::invariants::{
    lemma_all_swept, lemma_halted, lemma_scheduled, lemma_settled, lemma_swept,
};
use crate::journey::{attempts_allowed, lemma_begun, lemma_journey, Journey, Place};
use crate::pool::{stops, Job, PoolStep, PoolView};
use crate::runs::{
    lemma_bury_stage, lemma_enter_stage, lemma_flow, lemma_handing, lemma_ran, Step,
};
use crate::state::{
    dead_letter_config, drain_jobs, BusView, FlightView, ProcessView, PublishView, Refusal,
    SettledView,
};
use vstd::prelude::*;

verus! {

// -- routing slips -----------------------------------------------------------

/// A slip visits the stages of its itinerary in order, one for each time that
/// it is advanced, and is then completed.
pub proof fn law_slip_visits_in_order(services: Seq<Seq<char>>, hops: nat)
    requires
        hops <= services.len(),
    ensures
        ({
            let slip = SlipView { current: None, pending: itinerary(services) };
            if hops < services.len() {
                slip.visit(hops).current == Some(
                    RouteView { service: services[hops as int], operation: OP@ },
                )
            } else {
                slip.visit(hops) == (SlipView { current: None, pending: Seq::empty() })
            }
        }),
    decreases hops,
{
    let slip = SlipView { current: None, pending: itinerary(services) };
    lemma_visit(slip, hops);
    if hops > 0 {
        lemma_visit(slip, (hops - 1) as nat);
    }
}

/// What is pending after a number of hops.
proof fn lemma_visit(slip: SlipView, hops: nat)
    requires
        slip.current is None,
        hops <= slip.pending.len(),
    ensures
        hops < slip.pending.len() ==> slip.visit(hops) == (SlipView {
            current: Some(slip.pending[hops as int]),
            pending: slip.pending.skip(hops as int + 1),
        }),
        hops == slip.pending.len() ==> slip.visit(hops) == (SlipView {
            current: None,
            pending: Seq::empty(),
        }),
    decreases hops,
{
    if hops == 0 {
        assert(slip.pending.len() == 0 ==> slip.pending =~= Seq::empty());
    } else {
        lemma_visit(slip, (hops - 1) as nat);
        let last = slip.pending.skip(hops as int);
        assert(last.len() > 0 ==> last.skip(1) =~= slip.pending.skip(hops as int + 1));
        assert(last.len() == 0 ==> last =~= Seq::empty());
    }
}

/// An acked envelope with hops left is queued, behind all others, at the stage
/// that its slip names next, where that has room.
pub proof fn law_acked_envelope_moves_on<C: Consumer, K>(
    s: BusView<C, K>,
    flight: FlightView<C>,
    next: usize,
)
    requires
        s.wf(),
        s.flying(flight),
        s.running,
        s.accepting,
        flight.env.slip.pending.len() > 0,
        s.index.contains_key(flight.env.slip.pending[0].service),
        next == s.index[flight.env.slip.pending[0].service],
        s.channels[next as int].has_room(),
    ensures
        s.settle_outcome(flight, true) == (SettledView::<K>::Forwarded {
            outcome: PublishView::Accepted,
            timeout_secs: FORWARD_TIMEOUT_SECS,
        }),
        s.settled(flight, true).channels[next as int].queue == s.channels[next as int].queue.push(
            flight.env.advanced(),
        ),
{
}

/// An envelope acked at the end of its itinerary hands its callback out, once.
pub proof fn law_completion_calls_back_once<C: Consumer, K>(
    s: BusView<C, K>,
    flight: FlightView<C>,
)
    requires
        s.wf(),
        s.flying(flight),
        flight.env.slip.pending.len() == 0,
        s.callbacks.contains_key(flight.env.id),
    ensures
        s.settle_outcome(flight, true) == SettledView::Completed(
            s.callbacks[flight.env.id],
            flight.env.advanced(),
        ),
        s.settled(flight, true).callbacks == s.callbacks.remove(flight.env.id),
{
}

/// An envelope that is refused, at once or after waiting for room, leaves no
/// callback behind, and neither does a dead letter.
pub proof fn law_failure_drops_the_callback<C: Consumer, K>(
    s: BusView<C, K>,
    env: EnvelopeView,
    expired: bool,
    on_complete: K,
    i: int,
)
    requires
        s.wf(),
        0 <= i < s.channels.len(),
    ensures
        s.with_callbacks(s.callbacks.insert(env.id, on_complete)).publish_outcome(
            env,
            expired,
            true,
        ) is Refused ==> s.published_with_callback(env, expired, on_complete).callbacks
            == s.callbacks.remove(env.id),
        s.waited_for(i) && s.retry_outcome(i as usize, env, expired, true) is Refused
            ==> s.retried(i as usize, env, expired, true).callbacks == s.callbacks.remove(env.id),
        s.buried(i, env).callbacks == s.callbacks.remove(env.id),
{
    assert(s.callbacks.insert(env.id, on_complete).remove(env.id) =~= s.callbacks.remove(env.id));
}

/// Over any run, the callback of an envelope is handed out at most once, and
/// only after every hop of its slip was acked; never for one that was refused
/// or that became a dead letter, even where a consumer of dead letters acks
/// it. No other callback is kept in its place.
pub proof fn law_callback_over_a_run<C: Consumer, K>(
    s: BusView<C, K>,
    env: EnvelopeView,
    expired: bool,
    on_complete: K,
    steps: Seq<Step<C, K>>,
)
    requires
        s.wf(),
        s.absent(env.id),
        s.published_with_callback(env, expired, on_complete).can_run(steps),
        s.begun(Step::PublishWithCallback { env, expired, on_complete }, env).fits_all(
            s.published_with_callback(env, expired, on_complete),
            steps,
            env.id,
        ),
    ensures
        ({
            let first = Step::PublishWithCallback { env, expired, on_complete };
            let t = s.after(first).ran(steps);
            let j = s.begun(first, env).ran(s.after(first), steps, env.id);
            &&& j.calls <= 1
            &&& j.calls == 1 ==> j.acks == j.hops && !j.dead && !t.callbacks.contains_key(env.id)
            &&& j.dead ==> j.calls == 0 && !t.callbacks.contains_key(env.id)
            &&& s.published_as(first) is Refused ==> j.place is Gone && j.calls == 0
                && !t.callbacks.contains_key(env.id)
            &&& t.callbacks.contains_key(env.id) ==> t.callbacks[env.id] == on_complete
        }),
{
    let first = Step::PublishWithCallback { env, expired, on_complete };
    assert(first.publishes(env));
    lemma_begun(s, first, env);
    lemma_journey(s.after(first), s.begun(first, env), steps, env.id);
    let t = s.with_callbacks(s.callbacks.insert(env.id, on_complete));
    if t.refusal(env) is None {
        let i = t.stage_of(env) as int;
        assert(t.frame_wf());
        lemma_enter_stage(t, i, env.started(), expired, i);
    }
}

/// A callback that is owed is handed out: over any run, an envelope that was
/// published with one and let in, at once or after waiting for room, and that
/// is gone without being dead or lost, has had its callback handed out,
/// exactly once. Until then the callback is kept.
pub proof fn law_finished_journey_calls_back<C: Consumer, K>(
    s: BusView<C, K>,
    env: EnvelopeView,
    expired: bool,
    on_complete: K,
    steps: Seq<Step<C, K>>,
)
    requires
        s.wf(),
        s.absent(env.id),
        s.published_with_callback(env, expired, on_complete).can_run(steps),
        s.begun(Step::PublishWithCallback { env, expired, on_complete }, env).fits_all(
            s.published_with_callback(env, expired, on_complete),
            steps,
            env.id,
        ),
    ensures
        ({
            let first = Step::PublishWithCallback { env, expired, on_complete };
            let t = s.after(first).ran(steps);
            let j = s.begun(first, env).ran(s.after(first), steps, env.id);
            !j.dead && !j.lost ==> if j.place is Gone {
                j.calls == 1 && j.acks == j.hops
            } else {
                &&& j.calls == 0
                &&& t.callbacks.contains_key(env.id)
                &&& t.callbacks[env.id] == on_complete
            }
        }),
{
    let first = Step::PublishWithCallback { env, expired, on_complete };
    law_callback_over_a_run(s, env, expired, on_complete, steps);
    law_publish_with_callback(s, env, expired, on_complete);
    lemma_begun(s, first, env);
    lemma_journey(s.after(first), s.begun(first, env), steps, env.id);
}

/// A callback that was dropped is never handed out, whatever becomes of the
/// envelope.
pub proof fn law_dropped_callback_is_never_called<C: Consumer, K>(
    s: BusView<C, K>,
    j: Journey<C>,
    steps: Seq<Step<C, K>>,
    id: Seq<char>,
)
    requires
        s.wf(),
        j.told(s, id),
        !s.callbacks.contains_key(id),
        s.can_run(steps),
        j.fits_all(s, steps, id),
    ensures
        j.ran(s, steps, id).calls == j.calls,
        !s.ran(steps).callbacks.contains_key(id),
{
    lemma_journey(s, j, steps, id);
}

/// An envelope that is refused, dropped or done with is in no queue and is
/// never delivered again.
pub proof fn law_gone_is_gone<C: Consumer, K>(
    s: BusView<C, K>,
    j: Journey<C>,
    steps: Seq<Step<C, K>>,
    id: Seq<char>,
)
    requires
        s.wf(),
        j.told(s, id),
        j.place is Gone,
        s.can_run(steps),
        j.fits_all(s, steps, id),
    ensures
        j.ran(s, steps, id) == j,
        forall|i: int, a: int|
            0 <= i < s.ran(steps).channels.len() && 0 <= a < s.ran(steps).channels[i].queue.len()
                ==> (#[trigger] s.ran(steps).channels[i].queue[a]).id != id,
{
    lemma_journey(s, j, steps, id);
}

/// Over any run, each delivery of an envelope ends with one ack or one nack,
/// and the envelope is in one place at a time. It is gone only when all its
/// hops are acked, when it is a dead letter, or when it is lost. So one that
/// is never nacked, and not lost, is received exactly once for each hop.
pub proof fn law_every_hop_is_received_once<C: Consumer, K>(
    s: BusView<C, K>,
    first: Step<C, K>,
    env: EnvelopeView,
    steps: Seq<Step<C, K>>,
)
    requires
        s.wf(),
        s.absent(env.id),
        first.publishes(env),
        s.after(first).can_run(steps),
        s.begun(first, env).fits_all(s.after(first), steps, env.id),
    ensures
        ({
            let t = s.after(first).ran(steps);
            let j = s.begun(first, env).ran(s.after(first), steps, env.id);
            &&& j.told(t, env.id)
            &&& j.received == j.acks + j.nacks + if j.place is Flying {
                1int
            } else {
                0
            }
            &&& j.place is Gone ==> j.lost || j.dead || j.acks == j.hops
            &&& j.place is Gone && !j.lost && !j.dead && j.nacks == 0 ==> j.received == j.hops
            &&& s.published_as(first) is Refused ==> j.received == 0
        }),
{
    lemma_begun(s, first, env);
    lemma_journey(s.after(first), s.begun(first, env), steps, env.id);
}

/// An envelope is lost only where a stage evicts it for a newer one, where a
/// sweep drops it at a shutdown, or where the next stage turns it away.
pub proof fn law_nothing_else_loses_an_envelope<C: Consumer, K>(
    s: BusView<C, K>,
    j: Journey<C>,
    step: Step<C, K>,
    id: Seq<char>,
)
    requires
        s.wf(),
        j.told(s, id),
        s.allows(step),
        j.fits(step, id),
        !j.lost,
        j.after(s, step, id).lost,
    ensures
        match j.place {
            Place::Queued { channel, .. } => {
                ||| s.channels[channel as int].cfg.backpressure == Backpressure::DropOldest
                ||| s.sweeps(step, channel as int)
            },
            Place::Flying(_) => {
                &&& step matches Step::Settle { flight, ack }
                &&& ack
                &&& s.settle_outcome(flight, true) matches SettledView::Forwarded { outcome, .. }
                &&& outcome is Refused
            },
            Place::Parked { .. } => {
                &&& step matches Step::Retry { channel, env, expired, callback }
                &&& s.retry_outcome(channel, env, expired, callback) is Refused
            },
            Place::Gone => false,
        },
{
    match j.place {
        Place::Queued { channel, .. } => {
            lemma_flow(s, step, channel as int);
        },
        _ => {},
    }
}

// -- delivery ----------------------------------------------------------------

/// A stage after `k` more deliveries.
pub open spec fn turns<C>(c: ChannelView<C>, k: nat) -> ChannelView<C>
    decreases k,
{
    if k == 0 {
        c
    } else {
        turns(c, (k - 1) as nat).turned()
    }
}

/// Point-to-point consumers take turns, in the order of their subscription.
/// (The turn counter starts over after the largest `usize`.)
pub proof fn law_round_robin<C>(c: ChannelView<C>, k: nat)
    requires
        c.cfg.delivery == Delivery::PointToPoint,
        c.consumers.len() > 0,
        c.rr + k <= usize::MAX,
    ensures
        turns(c, k).selected() == seq![c.consumers[(c.rr + k) % c.consumers.len() as int]],
{
    lemma_turns(c, k);
}

proof fn lemma_turns<C>(c: ChannelView<C>, k: nat)
    requires
        c.cfg.delivery == Delivery::PointToPoint,
        c.rr + k <= usize::MAX,
    ensures
        turns(c, k) == (ChannelView { rr: (c.rr + k) as usize, ..c }),
    decreases k,
{
    if k > 0 {
        lemma_turns(c, (k - 1) as nat);
    }
}

/// Of as many deliveries in a row as there are consumers, no two go to the
/// same one: each consumer has its share.
pub proof fn law_round_robin_is_fair<C>(c: ChannelView<C>, j: nat, k: nat)
    requires
        c.cfg.delivery == Delivery::PointToPoint,
        c.consumers.len() > 0,
        j < k < j + c.consumers.len(),
    ensures
        (c.rr + j) % c.consumers.len() as int != (c.rr + k) % c.consumers.len() as int,
{
    let n = c.consumers.len() as int;
    let a = c.rr + j;
    let b = c.rr + k;
    if a % n == b % n {
        assert(b - a == n * (b / n - a / n)) by (nonlinear_arith)
            requires
                a % n == b % n,
                n > 0,
        ;
        let q = b / n - a / n;
        assert(q >= 1 ==> n * q >= n) by (nonlinear_arith)
            requires
                n > 0,
        ;
        assert(q <= 0 ==> n * q <= 0) by (nonlinear_arith)
            requires
                n > 0,
        ;
    }
}

/// A publish-subscribe stage hands every envelope to every consumer.
pub proof fn law_pub_sub_fans_out<C>(c: ChannelView<C>)
    requires
        c.cfg.delivery == Delivery::PubSub,
    ensures
        c.selected() == c.consumers,
        c.turned() == c,
{
}

// -- back-pressure -----------------------------------------------------------

/// `DropNewest` treats every offer as `Reject` does.
pub proof fn law_drop_newest_is_reject<C>(c: ChannelView<C>, env: EnvelopeView, expired: bool)
    requires
        c.cfg.backpressure == Backpressure::DropNewest,
    ensures
        ({
            let r = ChannelView {
                cfg: ChannelConfig { backpressure: Backpressure::Reject, ..c.cfg },
                ..c
            };
            &&& c.offer_outcome(expired) == r.offer_outcome(expired)
            &&& c.offered(env, expired) == (ChannelView { cfg: c.cfg, ..r.offered(env, expired) })
        }),
{
}

/// A full stage that rejects keeps what it has, and counts the drop.
pub proof fn law_reject_when_full<C>(c: ChannelView<C>, env: EnvelopeView, expired: bool)
    requires
        c.cfg.backpressure == Backpressure::Reject,
        !c.has_room(),
    ensures
        c.offer_outcome(expired) is Refused,
        c.offered(env, expired).queue == c.queue,
        c.offered(env, expired).enqueued == c.enqueued,
        c.offered(env, expired).dropped == counted(c.dropped, 1),
{
}

/// `DropOldest` always admits the newest envelope, keeps the most recent of
/// the others, and never exceeds the capacity.
pub proof fn law_drop_oldest_admits<C>(c: ChannelView<C>, env: EnvelopeView, expired: bool)
    requires
        c.wf(),
        c.cfg.backpressure == Backpressure::DropOldest,
    ensures
        c.offer_outcome(expired) is Accepted,
        c.offered(env, expired).queue.len() <= c.cfg.capacity,
        c.offered(env, expired).queue.last() == env,
        c.offered(env, expired).queue.drop_last() == c.queue.skip(
            c.queue.len() + 1 - c.offered(env, expired).queue.len(),
        ),
{
    let d = c.offered(env, expired);
    assert(d.queue.drop_last() =~= c.queue.skip(c.queue.len() + 1 - d.queue.len()));
}

/// `Block` drops nothing while its producer has time: the envelope is let in,
/// or its producer waits and keeps it. Out of time, it is dropped.
pub proof fn law_block_keeps_the_envelope<C>(c: ChannelView<C>, env: EnvelopeView)
    requires
        c.cfg.backpressure == Backpressure::Block,
    ensures
        !(c.offer_outcome(false) is Refused),
        c.offered(env, false).dropped == c.dropped,
        c.offer_outcome(false) is Full ==> !c.has_room(),
        !c.has_room() ==> c.offer_outcome(true) is Refused && c.offered(env, true).dropped
            == counted(c.dropped, 1),
{
}

/// No wakeup is lost: while a stage has room and producers wait for it, one of
/// them has been woken and is about to try again.
pub proof fn law_no_lost_wakeup<C: Consumer, K>(s: BusView<C, K>, i: int)
    requires
        s.wf(),
        0 <= i < s.channels.len(),
        s.channels[i].cfg.backpressure == Backpressure::Block,
        s.channels[i].has_room(),
        s.channels[i].waiters > 0,
    ensures
        s.channels[i].woken > 0,
{
    assert(s.stage_wf(i));
}

/// A producer that tries again while there is room is let in, unless the bus
/// was stopped.
pub proof fn law_woken_producer_enters<C: Consumer, K>(
    s: BusView<C, K>,
    i: usize,
    env: EnvelopeView,
    expired: bool,
    callback: bool,
)
    requires
        s.wf(),
        s.running,
        s.waited_for(i as int),
        s.channels[i as int].has_room(),
    ensures
        s.retry_outcome(i, env, expired, callback) is Accepted,
        s.retried(i, env, expired, callback).channels[i as int].queue
            == s.channels[i as int].queue.push(env),
{
}

/// A queue never exceeds its capacity, but by the envelopes that came back for
/// a retry, of which there are no more than may be in flight.
pub proof fn law_depth_is_bounded<C: Consumer, K>(s: BusView<C, K>, i: int)
    requires
        s.wf(),
        0 <= i < s.channels.len(),
    ensures
        s.channels[i].queue.len() <= s.channels[i].cfg.capacity + s.channels[i].cfg.headroom(),
{
    assert(s.stage_wf(i));
}

// -- queues ------------------------------------------------------------------

/// A stage after `k` envelopes were taken from it.
pub open spec fn polls<C>(c: ChannelView<C>, k: nat) -> ChannelView<C>
    decreases k,
{
    if k == 0 {
        c
    } else {
        polls(c, (k - 1) as nat).polled()
    }
}

/// First in, first out: an envelope let in comes out unchanged, after exactly
/// those that were queued before it.
pub proof fn law_fifo<C>(c: ChannelView<C>, env: EnvelopeView, k: nat)
    requires
        k <= c.queue.len(),
    ensures
        polls(c.admitted(env), k).queue[0] == if k < c.queue.len() {
            c.queue[k as int]
        } else {
            env
        },
{
    lemma_polls(c.admitted(env), k);
}

proof fn lemma_polls<C>(c: ChannelView<C>, k: nat)
    requires
        k <= c.queue.len(),
    ensures
        polls(c, k).queue == c.queue.skip(k as int),
    decreases k,
{
    if k == 0 {
        assert(c.queue.skip(0) =~= c.queue);
    } else {
        lemma_polls(c, (k - 1) as nat);
        assert(c.queue.skip(k - 1).skip(1) =~= c.queue.skip(k as int));
    }
}

// -- scheduling --------------------------------------------------------------

/// A stage never has more envelopes in flight than workers draining it, nor
/// more of those than its concurrency.
pub proof fn law_concurrency_is_limited<C: Consumer, K>(s: BusView<C, K>, i: int)
    requires
        s.wf(),
        0 <= i < s.channels.len(),
    ensures
        s.channels[i].in_flight <= s.drains[i] <= s.channels[i].cfg.concurrency,
{
    assert(s.stage_wf(i));
}

/// Every permit of a stage is free, with a drain job, or with a worker.
pub proof fn law_permits_are_conserved<C: Consumer, K>(s: BusView<C, K>, i: int)
    requires
        s.wf(),
        0 <= i < s.channels.len(),
    ensures
        s.channels[i].permits + drain_jobs(s.pool.jobs, i) + s.drains[i]
            == s.channels[i].cfg.concurrency,
{
    assert(s.stage_wf(i));
}

/// Scheduling a stage leaves no permit idle while it has work, unless the pool
/// was stopped: each free permit goes to one drain job, behind all others. A
/// stage without work, or with a stopped pool, keeps its permits.
pub proof fn law_scheduling_uses_every_permit<C: Consumer, K>(s: BusView<C, K>, i: int)
    requires
        s.wf_but(i),
        0 <= i < s.channels.len(),
    ensures
        ({
            let t = s.scheduled(i);
            let n = s.channels[i].permits - t.channels[i].permits;
            &&& t.wf()
            &&& t.channels[i].queue == s.channels[i].queue
            &&& t.channels[i].queue.len() == 0 || t.channels[i].permits == 0 || t.pool.stopped
            &&& s.channels[i].queue.len() == 0 || s.pool.stopped ==> t == s
            &&& 0 <= n <= s.channels[i].permits
            &&& t.pool.jobs == s.pool.jobs + Seq::new(n as nat, |k: int| Job::Run(i as usize))
        }),
{
    lemma_scheduled(s, i);
    let t = s.scheduled(i);
    let n = s.channels[i].permits - t.channels[i].permits;
    assert(t.pool.jobs =~= s.pool.jobs + Seq::new(n as nat, |k: int| Job::Run(i as usize)));
}

/// No work is stranded: while the bus is running, a stage with something
/// queued has a worker draining it, or a job for one in the pool.
pub proof fn law_no_stranded_work<C: Consumer, K>(s: BusView<C, K>, i: int)
    requires
        s.wf(),
        s.running,
        0 <= i < s.channels.len(),
        s.channels[i].queue.len() > 0,
        s.channels[i].cfg.concurrency > 0,
    ensures
        s.drains[i] + drain_jobs(s.pool.jobs, i) > 0,
{
    assert(s.stage_wf(i));
    assert(s.stage_served(i));
}

/// Jobs queued when the pool is stopped are taken before any worker ends.
pub proof fn law_jobs_run_before_stops<J>(p: PoolView<J>, k: int)
    requires
        0 <= k < p.joined().jobs.len(),
    ensures
        p.joined().stopped,
        p.joined().jobs.len() == p.jobs.len() + p.workers,
        p.joined().jobs[k] == if k < p.jobs.len() {
            p.jobs[k]
        } else {
            Job::Stop
        },
{
}

/// Every job that a pool accepts is handed to a worker exactly once, in the
/// order of submission: over any run, what was handed out and what is queued in
/// the end is what was queued at first and what was accepted since. The size
/// of the pool stays.
pub proof fn law_pool_hands_out_every_job_once<J>(p: PoolView<J>, steps: Seq<PoolStep<J>>)
    ensures
        p.jobs + p.queued(steps) == p.handed(steps) + p.ran(steps).jobs,
        p.ran(steps).size == p.size,
    decreases steps.len(),
{
    if steps.len() == 0 {
        assert(p.jobs + Seq::empty() =~= Seq::empty() + p.jobs);
    } else {
        let before = steps.drop_last();
        let step = steps.last();
        let q = p.ran(before);
        law_pool_hands_out_every_job_once(p, before);
        assert(q.jobs + q.queuing(step) =~= q.handing(step) + q.after(step).jobs);
        assert(p.jobs + p.queued(steps) =~= (p.jobs + p.queued(before)) + q.queuing(step));
        assert(p.handed(before) + q.jobs + q.queuing(step) =~= p.handed(steps) + q.after(
            step,
        ).jobs);
    }
}

/// A pool accepts jobs until it is stopped, and tells each worker to stop
/// once: over any run, the orders to stop and the workers that had none make
/// up the pool.
pub proof fn law_pool_stops_every_worker_once<J>(p: PoolView<J>, steps: Seq<PoolStep<J>>)
    ensures
        stops(p.queued(steps)) + p.ran(steps).workers == p.workers,
        p.ran(steps).stopped == (p.stopped || exists|k: int|
            0 <= k < steps.len() && (#[trigger] steps[k]) is Join),
    decreases steps.len(),
{
    if steps.len() > 0 {
        let before = steps.drop_last();
        let step = steps.last();
        let q = p.ran(before);
        law_pool_stops_every_worker_once(p, before);
        lemma_stops(p.queued(before), q.queuing(step));
        match step {
            PoolStep::Execute(job) => {
                assert(seq![Job::Run(job)].drop_last() =~= Seq::empty());
                assert(stops(seq![Job::Run(job)]) == stops(Seq::<Job<J>>::empty()));
            },
            PoolStep::Take => {},
            PoolStep::Join => {
                lemma_all_stops::<J>(q.workers as nat);
            },
        }
        if exists|k: int| 0 <= k < before.len() && (#[trigger] before[k]) is Join {
            let k = choose|k: int| 0 <= k < before.len() && (#[trigger] before[k]) is Join;
            assert(steps[k] is Join);
        }
        if exists|k: int| 0 <= k < steps.len() && (#[trigger] steps[k]) is Join {
            let k = choose|k: int| 0 <= k < steps.len() && (#[trigger] steps[k]) is Join;
            if k < before.len() {
                assert(before[k] is Join);
            }
        }
        if step is Join {
            assert(steps[steps.len() - 1] is Join);
        }
    }
}

proof fn lemma_stops<J>(a: Seq<Job<J>>, b: Seq<Job<J>>)
    ensures
        stops(a + b) == stops(a) + stops(b),
    decreases b.len(),
{
    if b.len() == 0 {
        assert(a + b =~= a);
    } else {
        assert((a + b).drop_last() =~= a + b.drop_last());
        lemma_stops(a, b.drop_last());
    }
}

proof fn lemma_all_stops<J>(n: nat)
    ensures
        stops(Seq::new(n, |i: int| Job::<J>::Stop)) == n,
    decreases n,
{
    if n > 0 {
        let all = Seq::new(n, |i: int| Job::<J>::Stop);
        assert(all.drop_last() =~= Seq::new((n - 1) as nat, |i: int| Job::<J>::Stop));
        lemma_all_stops::<J>((n - 1) as nat);
    }
}

// -- retries and dead letters ------------------------------------------------

/// Each delivery of an envelope is numbered one higher than the last, and its
/// number decides over a nack: with attempts left it is queued again, and the
/// number kept; else it is a dead letter, and the number forgotten.
pub proof fn law_attempts_decide_a_nack<C: Consumer, K>(
    s: BusView<C, K>,
    i: usize,
    env: EnvelopeView,
    made: u32,
)
    requires
        s.wf(),
        i < s.channels.len(),
        s.channels[i as int].in_flight > 0,
        s.channels[i as int].consumers.len() > 0,
        s.channels[i as int].tracks_attempts(),
        made < s.channels[i as int].cfg.max_attempts,
        if s.channels[i as int].attempts.contains_key(env.id) {
            s.channels[i as int].attempts[env.id] == made
        } else {
            made == 0
        },
    ensures
        ({
            let c = s.channels[i as int];
            let t = s.processed(i as int, env);
            &&& s.process_outcome(i, env) matches ProcessView::Deliver(flight)
            &&& flight.attempt == made + 1
            &&& if made + 1 < c.cfg.max_attempts {
                &&& t.settle_outcome(flight, false) is Requeued
                &&& t.settled(flight, false).channels[i as int].queue == c.queue.push(env)
                &&& t.settled(flight, false).channels[i as int].attempts == c.attempts.insert(
                    env.id,
                    (made + 1) as u32,
                )
            } else {
                &&& t.settle_outcome(flight, false) is DeadLettered
                &&& t.settled(flight, false).channels[i as int].dead_lettered == counted(
                    c.dead_lettered,
                    1,
                )
                &&& t.settled(flight, false).channels[i as int].attempts == c.attempts.remove(env.id)
            }
        }),
{
    let c = s.channels[i as int];
    assert(c.attempts.insert(env.id, (made + 1) as u32).remove(env.id) =~= c.attempts.remove(
        env.id,
    ));
}

/// A nacked envelope is retried until it has had `max_attempts` deliveries,
/// and then dead-lettered, whatever else is queued and whoever takes it: over
/// any run, its deliveries at the stage where it is are numbered, another one
/// is made only while some are left, and a nack queues it again where they
/// are and else makes it a dead letter. So one that is always nacked is
/// delivered exactly that often.
pub proof fn law_nacks_retry_then_dead_letter<C: Consumer, K>(
    s: BusView<C, K>,
    first: Step<C, K>,
    env: EnvelopeView,
    steps: Seq<Step<C, K>>,
)
    requires
        s.wf(),
        s.unknown(env.id),
        first.publishes(env),
        s.after(first).can_run(steps),
        s.begun(first, env).fits_all(s.after(first), steps, env.id),
    ensures
        ({
            let t = s.after(first).ran(steps);
            let j = s.begun(first, env).ran(s.after(first), steps, env.id);
            match j.place {
                Place::Queued { channel, .. } => {
                    let c = t.channels[channel as int];
                    &&& j.deliveries < attempts_allowed(c.cfg)
                    &&& c.tracks_attempts() ==> c.next_attempt(env.id) == j.deliveries + 1
                },
                Place::Flying(flight) => {
                    let c = t.channels[flight.channel as int];
                    &&& flight.attempt == j.deliveries
                    &&& 1 <= j.deliveries <= attempts_allowed(c.cfg)
                    &&& forall|left: EnvelopeView|
                        (#[trigger] t.settle_outcome(FlightView { env: left, ..flight }, false))
                            == if j.deliveries < attempts_allowed(c.cfg) {
                            SettledView::<K>::Requeued
                        } else {
                            SettledView::<K>::DeadLettered
                        }
                },
                _ => true,
            }
        }),
{
    lemma_begun(s, first, env);
    lemma_journey(s.after(first), s.begun(first, env), steps, env.id);
}

/// After its last nack, nothing is remembered of the envelope's attempts: the
/// next one that carries its id starts from its first attempt.
pub proof fn law_dead_letter_forgets_attempts<C: Consumer, K>(
    s: BusView<C, K>,
    flight: FlightView<C>,
)
    requires
        s.wf(),
        s.flying(flight),
        s.channels[flight.channel as int].tracks_attempts(),
        s.settle_outcome(flight, false) is DeadLettered,
    ensures
        s.settled(flight, false).channels[flight.channel as int].next_attempt(flight.env.id) == 1,
        s.settled(flight, false).channels[flight.channel as int].attempts
            == s.channels[flight.channel as int].attempts.remove(flight.env.id),
        s.settled(flight, false).channels[flight.channel as int].dead_lettered == counted(
            s.channels[flight.channel as int].dead_lettered,
            1,
        ),
{
    let k = flight.channel as int;
    let t = s.with_channel(k, s.channels[k].nacking().forgetting(flight.env.id));
    lemma_settled(s, flight, false);
    lemma_bury_stage(t, k, flight.env, k);
}

/// After an ack nothing is remembered of the envelope's attempts: the next one
/// that carries its id starts from its first attempt.
pub proof fn law_ack_clears_attempts<C: Consumer, K>(s: BusView<C, K>, flight: FlightView<C>)
    requires
        s.wf(),
        s.flying(flight),
        s.channels[flight.channel as int].tracks_attempts(),
    ensures
        s.settled(flight, true).channels[flight.channel as int].next_attempt(flight.env.id) == 1,
        s.settled(flight, true).channels[flight.channel as int].attempts
            == s.channels[flight.channel as int].attempts.remove(flight.env.id),
{
}

/// A stage without consumers dead-letters what is taken from it at once.
pub proof fn law_no_consumers_dead_letters<C: Consumer, K>(s: BusView<C, K>, i: usize)
    requires
        s.wf(),
        s.idle_drain(i as int),
        s.channels[i as int].queue.len() > 0,
        s.channels[i as int].consumers.len() == 0,
    ensures
        s.drain_outcome(i) == ProcessView::<C>::DeadLettered(s.channels[i as int].queue[0].id),
        s.drain_taken(i as int).channels[i as int].dead_lettered == counted(
            s.channels[i as int].dead_lettered,
            1,
        ),
{
}

/// A dead letter reaches the stage for dead letters, where that takes it;
/// nothing else is queued there or leaves but to make room.
pub proof fn law_dead_letter_arrives<C: Consumer, K>(
    s: BusView<C, K>,
    i: int,
    j: usize,
    env: EnvelopeView,
)
    requires
        s.wf(),
        0 <= i < s.channels.len(),
        s.channels[i].in_flight > 0,
        s.grave_of(i) == Some(j),
        s.channels[j as int].offer_outcome(true) is Accepted,
    ensures
        s.buried(i, env).channels[j as int].queue == s.channels[j as int].offered(env, true).queue,
        s.buried(i, env).channels[j as int].queue.last() == env,
{
}

/// A stage registered for dead letters takes every one of them.
pub proof fn law_dead_letter_stage_takes_all<C: Consumer, K>(
    s: BusView<C, K>,
    source: Seq<char>,
    dlq: Seq<char>,
)
    requires
        s.wf(),
        s.channels.len() < usize::MAX,
        !s.index.contains_key(dlq),
    ensures
        ({
            let t = s.with_dead_letters(source, dlq);
            &&& t.dlq[source] == dlq
            &&& t.index.contains_key(dlq)
            &&& t.channels[t.index[dlq] as int].cfg == dead_letter_config()
        }),
        forall|c: ChannelView<C>, expired: bool|
            c.cfg == dead_letter_config() ==> (#[trigger] c.offer_outcome(expired)) is Accepted,
{
}

// -- lifecycle ---------------------------------------------------------------

/// A paused bus refuses every envelope and stays as it is; resuming undoes the
/// pause.
pub proof fn law_pause_and_resume<C: Consumer, K>(
    s: BusView<C, K>,
    env: EnvelopeView,
    expired: bool,
    callback: bool,
)
    requires
        s.wf(),
        s.running,
        s.accepting,
    ensures
        s.paused().publish_outcome(env, expired, callback) == PublishView::Refused(
            Refusal::NotAccepting,
        ),
        s.paused().published(env, expired) == s.paused(),
        s.paused().resumed() == s,
{
}

/// An envelope for a stage that is not registered is refused, and nothing
/// changes.
pub proof fn law_unknown_channel_is_refused<C: Consumer, K>(
    s: BusView<C, K>,
    env: EnvelopeView,
    expired: bool,
    callback: bool,
)
    requires
        s.wf(),
        match env.target() {
            Some(name) => !s.index.contains_key(name),
            None => true,
        },
    ensures
        s.publish_outcome(env, expired, callback) is Refused,
        s.published(env, expired) == s,
{
}

/// Registering a stage adds it, with nothing queued, counted or subscribed,
/// and leaves all others as they are. Re-registering it is a no-op.
pub proof fn law_registering_twice_is_once<C: Consumer, K>(
    s: BusView<C, K>,
    name: Seq<char>,
    first: ChannelConfig,
    second: ChannelConfig,
)
    requires
        s.wf(),
    ensures
        s.registered(name, first).registered(name, second) == s.registered(name, first),
        s.index.contains_key(name) ==> s.registered(name, first) == s,
        !s.index.contains_key(name) && s.channels.len() < usize::MAX ==> {
            let t = s.registered(name, first);
            &&& t.channels == s.channels.push(ChannelView::fresh(name, first))
            &&& t.index == s.index.insert(name, s.channels.len() as usize)
            &&& t.stats() == s.stats().insert(
                name,
                Stats {
                    depth: 0,
                    enqueued: 0,
                    delivered: 0,
                    nacked: 0,
                    dropped: 0,
                    dead_lettered: 0,
                },
            )
            &&& t.dlq == s.dlq
            &&& t.callbacks == s.callbacks
            &&& t.pool == s.pool
            &&& t.running == s.running
            &&& t.accepting == s.accepting
        },
{
    if !s.index.contains_key(name) && s.channels.len() < usize::MAX {
        let t = s.registered(name, first);
        assert(t.stats() =~= s.stats().insert(
            name,
            ChannelView::<C>::fresh(name, first).stats(),
        ));
    }
}

/// A bus that was shut down stays shut down: it refuses every envelope, cannot
/// be resumed, takes nothing more from its queues and schedules no more work.
pub proof fn law_shutdown_is_final<C: Consumer, K>(
    s: BusView<C, K>,
    env: EnvelopeView,
    expired: bool,
    callback: bool,
    i: int,
    left: usize,
)
    requires
        s.wf(),
        0 <= i < s.channels.len(),
    ensures
        s.stopped().publish_outcome(env, expired, callback) == PublishView::Refused(
            Refusal::NotAccepting,
        ),
        s.stopped().published(env, expired) == s.stopped(),
        s.stopped().resumed() == s.stopped(),
        !s.stopped().drain_takes(i, left),
        s.stopped().scheduled(i) == s.stopped(),
        s.halted().publish_outcome(env, expired, callback) == PublishView::Refused(
            Refusal::NotAccepting,
        ),
        s.halted().published(env, expired) == s.halted(),
        s.halted().resumed() == s.halted(),
        !s.halted().drain_takes(i, left),
        s.halted().scheduled(i) == s.halted(),
{
}

/// Every envelope that a stage let in is delivered, dead-lettered or dropped
/// once its queue is empty and nothing is in flight. The drops also count the
/// offers that were turned away; counters wrap around together.
pub proof fn law_every_envelope_is_accounted_for<C: Consumer, K>(s: BusView<C, K>, i: int)
    requires
        s.wf(),
        0 <= i < s.channels.len(),
        s.channels[i].queue.len() == 0,
        s.channels[i].in_flight == 0,
    ensures
        ({
            let c = s.channels[i];
            (c.delivered + c.dead_lettered + c.dropped) % 0x1_0000_0000_0000_0000 == (c.enqueued
                + c.refused) % 0x1_0000_0000_0000_0000
        }),
{
    let c = s.channels[i];
    assert(s.stage_wf(i));
    lemma_same_counts(c.delivered + c.dead_lettered + c.dropped, c.enqueued + c.refused);
}

/// No shutdown strands anything, whether it ran out of time or not: what the
/// workers left in the queues is counted as dropped, once, and every envelope
/// is accounted for. Where they left nothing, nothing is dropped.
pub proof fn law_shutdown_accounts_for_all<C: Consumer, K>(s: BusView<C, K>, i: int)
    requires
        s.wf(),
        0 <= i < s.channels.len(),
        s.channels[i].in_flight == 0,
    ensures
        ({
            let c = s.swept().channels[i];
            &&& c.queue.len() == 0
            &&& c.dropped == counted(s.channels[i].dropped, s.channels[i].queue.len())
            &&& (c.delivered + c.dead_lettered + c.dropped) % 0x1_0000_0000_0000_0000 == (
            c.enqueued + c.refused) % 0x1_0000_0000_0000_0000
        }),
        s.empty() ==> s.swept() == s,
{
    let c = s.channels[i].swept();
    assert(s.stage_wf(i));
    lemma_swept(s.channels[i]);
    assert(s.swept().channels[i] == c);
    lemma_same_counts(c.delivered + c.dead_lettered + c.dropped, c.enqueued + c.refused);
    if s.empty() {
        lemma_nothing_to_sweep(s);
    }
}

/// Counts that differ by whole laps show the same.
proof fn lemma_same_counts(a: int, b: int)
    requires
        (a - b) % 0x1_0000_0000_0000_0000 == 0,
    ensures
        a % 0x1_0000_0000_0000_0000 == b % 0x1_0000_0000_0000_0000,
{
}

proof fn lemma_nothing_to_sweep<C: Consumer, K>(s: BusView<C, K>)
    requires
        s.empty(),
    ensures
        s.swept() == s,
{
    assert forall|j: int| 0 <= j < s.channels.len() implies #[trigger] s.swept().channels[j]
        == s.channels[j] by {
        let c = s.channels[j];
        assert(c.queue.skip(c.queue.len() as int) =~= c.queue);
        assert(c.swept() =~= c);
    }
    assert(s.swept() =~= s);
}

/// A bus that is quiet has nothing under way: no envelope is in flight, no
/// worker has a stage to drain and no job is waiting to drain one.
pub proof fn law_quiet_means_done<C: Consumer, K>(s: BusView<C, K>, i: int)
    requires
        s.wf(),
        s.quiet(),
        0 <= i < s.channels.len(),
    ensures
        s.channels[i].queue.len() == 0,
        s.channels[i].in_flight == 0,
        s.drains[i] == 0,
        drain_jobs(s.pool.jobs, i) == 0,
{
    assert(s.stage_wf(i));
}

/// A shutdown that found the bus quiet has drained everything: whatever workers
/// and producers still do, nothing is queued when the workers have ended, and
/// the sweep drops nothing. So a shutdown that drops something had run out of time.
pub proof fn law_quiet_shutdown_drains_all<C: Consumer, K>(
    s: BusView<C, K>,
    steps: Seq<Step<C, K>>,
)
    requires
        s.wf(),
        s.quiet(),
        s.halted().can_run(steps),
    ensures
        s.halted().ran(steps).empty(),
        s.halted().ran(steps).swept() == s.halted().ran(steps),
{
    lemma_halted(s);
    assert forall|i: int| 0 <= i < s.channels.len() implies (
    #[trigger] s.halted().channels[i]).queue.len() == 0 && s.halted().channels[i].in_flight == 0 by {
        law_quiet_means_done(s, i);
    }
    lemma_stays_empty(s.halted(), steps);
    lemma_nothing_to_sweep(s.halted().ran(steps));
}

/// What was queued when the bus was stopped is found when the workers have
/// ended: on a stopped bus no step but the sweep empties a queue.
pub proof fn law_stopped_work_is_found<C: Consumer, K>(
    s: BusView<C, K>,
    steps: Seq<Step<C, K>>,
    i: int,
)
    requires
        s.wf(),
        !s.running,
        s.can_run(steps),
        forall|k: int| 0 <= k < steps.len() ==> !((#[trigger] steps[k]) is Sweep),
        0 <= i < s.channels.len(),
        s.channels[i].queue.len() > 0,
    ensures
        !s.ran(steps).running,
        i < s.ran(steps).channels.len(),
        s.ran(steps).channels[i].queue.len() > 0,
    decreases steps.len(),
{
    if steps.len() > 0 {
        let before = steps.drop_last();
        assert forall|k: int| 0 <= k < before.len() implies !((#[trigger] before[k]) is Sweep) by {
            assert(steps[k] == before[k]);
        }
        assert(steps[steps.len() - 1] == steps.last());
        law_stopped_work_is_found(s, before, i);
        lemma_ran(s, before);
        lemma_flow(s.ran(before), steps.last(), i);
        lemma_stays_stopped(s.ran(before), steps.last());
    }
}

/// No step starts a stopped bus again.
proof fn lemma_stays_stopped<C: Consumer, K>(s: BusView<C, K>, step: Step<C, K>)
    requires
        s.wf(),
        s.allows(step),
        !s.running,
    ensures
        !s.after(step).running,
{
    match step {
        Step::Drain { channel, left } => {
            assert(!s.drain_takes(channel as int, left));
        },
        Step::Settle { flight, ack } => {
            let k = flight.channel as int;
            if !ack && flight.attempt >= s.channels[k].cfg.max_attempts {
                let t = s.with_channel(k, s.channels[k].nacking().forgetting(flight.env.id));
                lemma_settled(s, flight, ack);
                lemma_bury_stage(t, k, flight.env, k);
            }
        },
        _ => {},
    }
}

/// After a shutdown nothing is stranded: once the workers have ended and the
/// queues are swept, nothing is ever queued again, whatever producers do.
pub proof fn law_nothing_enters_after_shutdown<C: Consumer, K>(
    s: BusView<C, K>,
    steps: Seq<Step<C, K>>,
)
    requires
        s.wf(),
        !s.running,
        forall|i: int| 0 <= i < s.channels.len() ==> (#[trigger] s.channels[i]).in_flight == 0,
        s.swept().can_run(steps),
    ensures
        s.swept().ran(steps).empty(),
{
    lemma_all_swept(s);
    lemma_stays_empty(s.swept(), steps);
}

/// Nothing is queued, and nothing in flight.
spec fn spent<C: Consumer, K>(s: BusView<C, K>) -> bool {
    forall|i: int|
        0 <= i < s.channels.len() ==> (#[trigger] s.channels[i]).queue.len() == 0
            && s.channels[i].in_flight == 0
}

proof fn lemma_stays_empty<C: Consumer, K>(s: BusView<C, K>, steps: Seq<Step<C, K>>)
    requires
        s.wf(),
        !s.running,
        spent(s),
        s.can_run(steps),
    ensures
        s.ran(steps).wf(),
        !s.ran(steps).running,
        spent(s.ran(steps)),
    decreases steps.len(),
{
    if steps.len() > 0 {
        let t = s.ran(steps.drop_last());
        let step = steps.last();
        lemma_stays_empty(s, steps.drop_last());
        lemma_ran(s, steps);
        lemma_stays_stopped(t, step);
        match step {
            Step::Settle { flight, .. } => {
                assert(t.channels[flight.channel as int].in_flight == 0);
            },
            Step::Retry { channel, .. } => {
                assert(t.channels[channel as int].queue.len() == 0);
            },
            Step::Drain { channel, left } => {
                assert(!t.drain_takes(channel as int, left));
                assert(t.channels[channel as int].queue.len() == 0);
            },
            _ => {},
        }
        let u = t.after(step);
        assert forall|i: int| 0 <= i < u.channels.len() implies (
        #[trigger] u.channels[i]).queue.len() == 0 && u.channels[i].in_flight == 0 by {
            if i < t.channels.len() {
                assert(t.channels[i].queue.len() == 0);
            }
        }
    }
}

/// When the workers have ended, a second shutdown finds the bus quiet, and
/// changes nothing.
pub proof fn law_second_shutdown_changes_nothing<C: Consumer, K>(s: BusView<C, K>)
    requires
        s.wf(),
        forall|i: int|
            0 <= i < s.channels.len() ==> #[trigger] s.drains[i] == 0 && drain_jobs(s.pool.jobs, i)
                == 0,
    ensures
        s.swept().quiet(),
        s.swept().empty(),
        s.swept().swept() == s.swept(),
        s.swept().halted().channels == s.swept().channels,
        s.swept().stopped().stats() == s.swept().stats(),
{
    lemma_all_swept(s);
    let t = s.swept();
    assert forall|i: int| 0 <= i < t.channels.len() implies (#[trigger] t.channels[i]).queue.len()
        == 0 && t.channels[i].permits == t.channels[i].cfg.concurrency by {
        assert(t.stage_wf(i));
        assert(s.drains[i] == 0);
    }
    lemma_nothing_to_sweep(t);
}

// -- runs --------------------------------------------------------------------

/// Every envelope let in is handed to consumers exactly once, and in order:
/// over any run, by however many producers and workers, what was handed out
/// and what is queued in the end is what was queued at first and what was let
/// in since. An envelope that is not let in is never handed out, and one that
/// is queued again for a retry counts as let in again. (What an eviction or a
/// sweep drops is not handed out.)
pub proof fn law_handed_out_exactly_once<C: Consumer, K>(
    s: BusView<C, K>,
    steps: Seq<Step<C, K>>,
    i: int,
)
    requires
        s.wf(),
        s.can_run(steps),
        0 <= i < s.channels.len(),
        s.channels[i].consumers.len() > 0,
        s.channels[i].cfg.backpressure != Backpressure::DropOldest,
        s.unswept(steps, i),
    ensures
        s.channels[i].queue + s.arrivals(steps, i) == s.handed(steps, i).map_values(
            |f: FlightView<C>| f.env,
        ) + s.ran(steps).channels[i].queue,
        forall|k: int| #![trigger s.handed(steps, i)[k]]
            0 <= k < s.handed(steps, i).len() ==> {
                &&& s.handed(steps, i)[k].consumers.len() >= 1
                &&& s.channels[i].cfg.delivery == Delivery::PointToPoint ==> s.handed(
                    steps,
                    i,
                )[k].consumers.len() == 1
            },
    decreases steps.len(),
{
    let envs = |flights: Seq<FlightView<C>>| flights.map_values(|f: FlightView<C>| f.env);
    let q = s.channels[i].queue;
    if steps.len() == 0 {
        assert(q + Seq::empty() =~= envs(Seq::empty()) + q);
    } else {
        let before = steps.drop_last();
        let step = steps.last();
        let t = s.ran(before);
        law_handed_out_exactly_once(s, before, i);
        lemma_ran(s, before);
        lemma_stage_ran(s, before, i);
        lemma_flow(t, step, i);
        lemma_handing(t, step, i);
        let r = t.channels[i].queue;
        let n = t.departing(step, i);
        let handing = t.handing(step, i);
        assert(envs(handing) =~= r.take(n));
        assert(envs(s.handed(steps, i)) =~= envs(s.handed(before, i)) + envs(handing));
        lemma_queue_moves(
            q,
            s.arrivals(before, i),
            envs(s.handed(before, i)),
            r,
            n,
            t.arriving(step, i),
        );
        assert forall|k: int| #![trigger s.handed(steps, i)[k]] 0 <= k < s.handed(
            steps,
            i,
        ).len() implies {
            &&& s.handed(steps, i)[k].consumers.len() >= 1
            &&& s.channels[i].cfg.delivery == Delivery::PointToPoint ==> s.handed(
                steps,
                i,
            )[k].consumers.len() == 1
        } by {
            if k < s.handed(before, i).len() {
                assert(s.handed(steps, i)[k] == s.handed(before, i)[k]);
            } else {
                assert(s.handed(steps, i)[k] == handing[0]);
            }
        }
    }
}

/// First in, first out, over any run and whatever the policy: what leaves a
/// queue, to be handled or dropped, and what is queued in the end is what was
/// queued at first and what was let in since, in that order.
pub proof fn law_fifo_over_a_run<C: Consumer, K>(
    s: BusView<C, K>,
    steps: Seq<Step<C, K>>,
    i: int,
)
    requires
        s.wf(),
        s.can_run(steps),
        0 <= i < s.channels.len(),
    ensures
        s.channels[i].queue + s.arrivals(steps, i) == s.departures(steps, i) + s.ran(
            steps,
        ).channels[i].queue,
    decreases steps.len(),
{
    let q = s.channels[i].queue;
    if steps.len() == 0 {
        assert(q + Seq::empty() =~= Seq::empty() + q);
    } else {
        let before = steps.drop_last();
        let step = steps.last();
        let t = s.ran(before);
        law_fifo_over_a_run(s, before, i);
        lemma_ran(s, before);
        lemma_stage_ran(s, before, i);
        lemma_flow(t, step, i);
        lemma_queue_moves(
            q,
            s.arrivals(before, i),
            s.departures(before, i),
            t.channels[i].queue,
            t.departing(step, i),
            t.arriving(step, i),
        );
    }
}

/// What came in and what went out still match after `n` more went out and some
/// came in.
proof fn lemma_queue_moves(
    first: Seq<EnvelopeView>,
    came: Seq<EnvelopeView>,
    went: Seq<EnvelopeView>,
    queue: Seq<EnvelopeView>,
    n: int,
    more: Seq<EnvelopeView>,
)
    requires
        first + came == went + queue,
        0 <= n <= queue.len(),
    ensures
        first + (came + more) == (went + queue.take(n)) + (queue.skip(n) + more),
{
    assert(queue =~= queue.take(n) + queue.skip(n));
    assert(first + (came + more) =~= (first + came) + more);
    assert((went + queue) + more =~= (went + queue.take(n)) + (queue.skip(n) + more));
}

/// A stage keeps its place, its name, its configuration and its consumers.
proof fn lemma_stage_ran<C: Consumer, K>(s: BusView<C, K>, steps: Seq<Step<C, K>>, i: int)
    requires
        s.wf(),
        s.can_run(steps),
        0 <= i < s.channels.len(),
    ensures
        i < s.ran(steps).channels.len(),
        s.ran(steps).channels[i].name == s.channels[i].name,
        s.ran(steps).channels[i].cfg == s.channels[i].cfg,
        s.ran(steps).channels[i].consumers.len() >= s.channels[i].consumers.len(),
    decreases steps.len(),
{
    if steps.len() > 0 {
        lemma_ran(s, steps.drop_last());
        lemma_stage_ran(s, steps.drop_last(), i);
        lemma_flow(s.ran(steps.drop_last()), steps.last(), i);
    }
}

/// Offers never take a queue beyond its capacity: over any run, only
/// envelopes that come back for a retry may.
pub proof fn law_offers_respect_the_capacity<C: Consumer, K>(
    s: BusView<C, K>,
    steps: Seq<Step<C, K>>,
    i: int,
)
    requires
        s.wf(),
        s.can_run(steps),
        0 <= i < s.channels.len(),
        s.channels[i].queue.len() <= s.channels[i].cfg.capacity,
        s.unretried(steps, i),
    ensures
        s.ran(steps).channels[i].queue.len() <= s.channels[i].cfg.capacity,
    decreases steps.len(),
{
    if steps.len() > 0 {
        law_offers_respect_the_capacity(s, steps.drop_last(), i);
        lemma_ran(s, steps.drop_last());
        lemma_stage_ran(s, steps.drop_last(), i);
        lemma_flow(s.ran(steps.drop_last()), steps.last(), i);
    }
}

/// Over any run in which nobody subscribes to the stage, the envelopes handed
/// out go to its consumers in turn, whichever envelopes they are, retried ones
/// or not.
pub proof fn law_round_robin_over_a_run<C: Consumer, K>(
    s: BusView<C, K>,
    steps: Seq<Step<C, K>>,
    i: int,
)
    requires
        s.wf(),
        s.can_run(steps),
        0 <= i < s.channels.len(),
        s.channels[i].cfg.delivery == Delivery::PointToPoint,
        s.channels[i].consumers.len() > 0,
        s.channels[i].rr + s.handed(steps, i).len() <= usize::MAX,
        forall|k: int|
            0 <= k < steps.len() ==> !(#[trigger] steps[k]).subscribes(s.channels[i].name),
    ensures
        s.ran(steps).channels[i].consumers == s.channels[i].consumers,
        s.ran(steps).channels[i].rr == s.channels[i].rr + s.handed(steps, i).len(),
        forall|k: int| #![trigger s.handed(steps, i)[k]]
            0 <= k < s.handed(steps, i).len() ==> s.handed(steps, i)[k].consumers == seq![
                s.channels[i].consumers[(s.channels[i].rr + k)
                    % s.channels[i].consumers.len() as int],
            ],
    decreases steps.len(),
{
    if steps.len() > 0 {
        let before = steps.drop_last();
        let step = steps.last();
        let t = s.ran(before);
        assert forall|k: int| 0 <= k < before.len() implies !(
        #[trigger] before[k]).subscribes(s.channels[i].name) by {
            assert(steps[k] == before[k]);
        }
        law_round_robin_over_a_run(s, before, i);
        lemma_ran(s, before);
        lemma_stage_ran(s, before, i);
        lemma_flow(t, step, i);
        lemma_handing(t, step, i);
        assert(steps[steps.len() - 1] == step);
        assert forall|k: int| #![trigger s.handed(steps, i)[k]] 0 <= k < s.handed(
            steps,
            i,
        ).len() implies s.handed(steps, i)[k].consumers == seq![
            s.channels[i].consumers[(s.channels[i].rr + k) % s.channels[i].consumers.len() as int],
        ] by {
            if k < s.handed(before, i).len() {
                assert(s.handed(steps, i)[k] == s.handed(before, i)[k]);
            } else {
                assert(s.handed(steps, i)[k] == t.handing(step, i)[0]);
            }
        }
    }
}

/// How many of the turns `from`, `from + 1`, .. of `m` fall to consumer `x`
/// out of `n`.
pub open spec fn share(from: int, m: nat, n: int, x: int) -> nat
    decreases m,
{
    if m == 0 {
        0
    } else {
        share(from, (m - 1) as nat, n, x) + if (from + m - 1) % n == x {
            1nat
        } else {
            0nat
        }
    }
}

/// Of any `m` turns in a row, each of `n` consumers has `m / n`, rounded down
/// or up.
pub proof fn law_round_robin_shares(from: int, m: nat, n: int, x: int)
    requires
        0 <= from,
        0 <= x < n,
    ensures
        m as int / n <= share(from, m, n, x) <= (m + n - 1) / n,
{
    lemma_share(from, m, n, x);
    let a = from - x + n - 1;
    lemma_quotients(a, m as int, n);
}

/// How many of the envelopes that a run hands out at stage `i` go to its
/// consumer `x`.
pub open spec fn served<C: Consumer, K>(
    s: BusView<C, K>,
    steps: Seq<Step<C, K>>,
    i: int,
    x: int,
) -> nat
    decreases steps.len(),
{
    if steps.len() == 0 {
        0
    } else {
        let t = s.ran(steps.drop_last());
        let c = t.channels[i];
        served(s, steps.drop_last(), i, x) + if t.handing(steps.last(), i).len() > 0 && c.rr as int
            % c.consumers.len() as int == x {
            1nat
        } else {
            0nat
        }
    }
}

/// Over any run in which nobody subscribes to the stage, each consumer of a
/// point-to-point stage has an equal share of what is handed out, rounded down
/// or up.
pub proof fn law_consumers_share_a_run<C: Consumer, K>(
    s: BusView<C, K>,
    steps: Seq<Step<C, K>>,
    i: int,
    x: int,
)
    requires
        s.wf(),
        s.can_run(steps),
        0 <= i < s.channels.len(),
        s.channels[i].cfg.delivery == Delivery::PointToPoint,
        0 <= x < s.channels[i].consumers.len(),
        s.channels[i].rr + s.handed(steps, i).len() <= usize::MAX,
        forall|k: int|
            0 <= k < steps.len() ==> !(#[trigger] steps[k]).subscribes(s.channels[i].name),
    ensures
        ({
            let m = s.handed(steps, i).len() as int;
            let n = s.channels[i].consumers.len() as int;
            m / n <= served(s, steps, i, x) <= (m + n - 1) / n
        }),
{
    lemma_served(s, steps, i, x);
    law_round_robin_shares(
        s.channels[i].rr as int,
        s.handed(steps, i).len(),
        s.channels[i].consumers.len() as int,
        x,
    );
}

proof fn lemma_served<C: Consumer, K>(s: BusView<C, K>, steps: Seq<Step<C, K>>, i: int, x: int)
    requires
        s.wf(),
        s.can_run(steps),
        0 <= i < s.channels.len(),
        s.channels[i].cfg.delivery == Delivery::PointToPoint,
        s.channels[i].consumers.len() > 0,
        s.channels[i].rr + s.handed(steps, i).len() <= usize::MAX,
        forall|k: int|
            0 <= k < steps.len() ==> !(#[trigger] steps[k]).subscribes(s.channels[i].name),
    ensures
        served(s, steps, i, x) == share(
            s.channels[i].rr as int,
            s.handed(steps, i).len(),
            s.channels[i].consumers.len() as int,
            x,
        ),
    decreases steps.len(),
{
    if steps.len() > 0 {
        let before = steps.drop_last();
        assert forall|k: int| 0 <= k < before.len() implies !(
        #[trigger] before[k]).subscribes(s.channels[i].name) by {
            assert(steps[k] == before[k]);
        }
        lemma_served(s, before, i, x);
        law_round_robin_over_a_run(s, before, i);
        lemma_ran(s, before);
        lemma_stage_ran(s, before, i);
        lemma_handing(s.ran(before), steps.last(), i);
    }
}

/// A share counts the multiples of `n` that are passed.
proof fn lemma_share(from: int, m: nat, n: int, x: int)
    requires
        0 <= from,
        0 <= x < n,
    ensures
        share(from, m, n, x) == (from - x + n - 1 + m) / n - (from - x + n - 1) / n,
    decreases m,
{
    if m > 0 {
        lemma_share(from, (m - 1) as nat, n, x);
        let b = from - x + n - 1 + m;
        lemma_next_quotient(b - 1, n);
        assert((from + m - 1) % n == x <==> b % n == 0) by {
            lemma_same_remainder(from + m - 1, x, n);
        }
    }
}

/// A quotient grows by one exactly at the multiples.
proof fn lemma_next_quotient(a: int, n: int)
    requires
        n > 0,
    ensures
        (a + 1) / n - a / n == if (a + 1) % n == 0 {
            1int
        } else {
            0int
        },
{
    let q = a / n;
    let r = a % n;
    vstd::arithmetic::div_mod::lemma_fundamental_div_mod(a, n);
    if r + 1 < n {
        vstd::arithmetic::div_mod::lemma_fundamental_div_mod_converse(a + 1, n, q, r + 1);
    } else {
        assert(n * (q + 1) == n * q + n) by (nonlinear_arith);
        vstd::arithmetic::div_mod::lemma_fundamental_div_mod_converse(a + 1, n, q + 1, 0);
    }
}

/// `y` leaves the remainder `x` exactly where `y - x` is a multiple.
proof fn lemma_same_remainder(y: int, x: int, n: int)
    requires
        0 <= x < n,
    ensures
        y % n == x <==> (y - x + n) % n == 0,
{
    let q = y / n;
    let r = y % n;
    vstd::arithmetic::div_mod::lemma_fundamental_div_mod(y, n);
    assert(q * n == n * q && (q + 1) * n == n * q + n) by (nonlinear_arith);
    if r >= x {
        vstd::arithmetic::div_mod::lemma_fundamental_div_mod_converse(
            y - x + n,
            n,
            q + 1,
            r - x,
        );
    } else {
        vstd::arithmetic::div_mod::lemma_fundamental_div_mod_converse(y - x + n, n, q, r - x + n);
    }
}

/// The difference of two quotients is the quotient of the difference, rounded
/// down or up.
proof fn lemma_quotients(a: int, m: int, n: int)
    requires
        n > 0,
        m >= 0,
    ensures
        m / n <= (a + m) / n - a / n <= (m + n - 1) / n,
{
    let qa = a / n;
    let ra = a % n;
    let qm = m / n;
    let rm = m % n;
    vstd::arithmetic::div_mod::lemma_fundamental_div_mod(a, n);
    vstd::arithmetic::div_mod::lemma_fundamental_div_mod(m, n);
    assert(n * (qa + qm) == n * qa + n * qm) by (nonlinear_arith);
    assert(n * (qa + qm + 1) == n * qa + n * qm + n) by (nonlinear_arith);
    assert(n * (qm + 1) == n * qm + n) by (nonlinear_arith);
    if ra + rm < n {
        vstd::arithmetic::div_mod::lemma_fundamental_div_mod_converse(
            a + m,
            n,
            qa + qm,
            ra + rm,
        );
    } else {
        vstd::arithmetic::div_mod::lemma_fundamental_div_mod_converse(
            a + m,
            n,
            qa + qm + 1,
            ra + rm - n,
        );
    }
    if rm == 0 {
        vstd::arithmetic::div_mod::lemma_fundamental_div_mod_converse(m + n - 1, n, qm, n - 1);
    } else {
        vstd::arithmetic::div_mod::lemma_fundamental_div_mod_converse(
            m + n - 1,
            n,
            qm + 1,
            rm - 1,
        );
    }
}

} // verus!
