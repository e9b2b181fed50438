//! What each operation does, told by what can be seen before and after it:
//! queues, counters, permits, jobs and callbacks.

use crate::bus::{InFlight, Parked, Process, Publish, Settled};
use crate::channel::{ChannelView, Offer, Outcome, Stats};
use crate::config::{at_least_one, Backpressure, ChannelConfig, Delivery, MAX_SLOTS};
use crate::consumer::{handled, Consumer};
use crate::envelope::{
    itinerary, names, opt_view, Envelope, EnvelopeView, Route, RouteView, SlipView, OP,
};
use crate::invariants::lemma_settled;
use crate::pool::{Job, PoolView};
use crate::state::{
    dead_letter_config, default_config, BusView, FlightView, ProcessView, PublishView, Refusal,
    SettledView,
};
use std::sync::Arc;
use vstd::prelude::*;

verus! {

// -- what is seen ------------------------------------------------------------

/// A 64-bit counter that stood at `n` when `k` more are counted.
pub open spec fn tally(n: u64, k: int) -> int {
    (n + k) % 0x1_0000_0000_0000_0000
}

/// The stage has as many envelopes as its capacity allows, or more.
pub open spec fn full<C>(c: ChannelView<C>) -> bool {
    c.queue.len() >= c.cfg.capacity
}

/// The name of the stage an envelope goes to when it is published.
pub open spec fn heading(env: EnvelopeView) -> Option<Seq<char>> {
    match env.slip.current {
        Some(route) => Some(route.service),
        None => if env.slip.pending.len() > 0 {
            Some(env.slip.pending[0].service)
        } else {
            None
        },
    }
}

/// The envelope once its next hop is the current one.
pub open spec fn on_next_hop(env: EnvelopeView) -> EnvelopeView {
    EnvelopeView {
        id: env.id,
        slip: SlipView {
            current: Some(env.slip.pending[0]),
            pending: env.slip.pending.skip(1),
        },
        content: env.content,
    }
}

/// The envelope as a stage queues it: at a hop.
pub open spec fn under_way(env: EnvelopeView) -> EnvelopeView {
    if env.slip.current is None {
        on_next_hop(env)
    } else {
        env
    }
}

/// `c` became `d` when `env` was queued: behind the most recent of the others,
/// without any of them gone while there was room, and within capacity. What
/// had to go is counted as dropped.
pub open spec fn takes_in<C>(c: ChannelView<C>, d: ChannelView<C>, env: EnvelopeView) -> bool {
    let gone = c.queue.len() + 1 - d.queue.len();
    &&& d.queue.len() > 0
    &&& d.queue.last() == env
    &&& 0 <= gone <= c.queue.len()
    &&& d.queue.drop_last() == c.queue.skip(gone)
    &&& if full(c) {
        d.queue.len() == c.cfg.capacity
    } else {
        gone == 0
    }
    &&& d.enqueued == tally(c.enqueued, 1)
    &&& d.dropped == tally(c.dropped, gone)
    &&& d == (ChannelView { queue: d.queue, enqueued: d.enqueued, dropped: d.dropped, ..c })
}

/// `c` became `d` when an envelope was turned away.
pub open spec fn turns_away<C>(c: ChannelView<C>, d: ChannelView<C>) -> bool {
    &&& d.dropped == tally(c.dropped, 1)
    &&& d == (ChannelView { dropped: d.dropped, refused: c.refused + 1, ..c })
}

/// `c` became `d` when one more producer began to wait.
pub open spec fn has_wait<C>(c: ChannelView<C>, d: ChannelView<C>) -> bool {
    &&& d.waiters == if c.waiters < usize::MAX {
        c.waiters + 1
    } else {
        0
    }
    &&& d == (ChannelView { waiters: d.waiters, ..c })
}

/// Every free permit of stage `i`, of which there were `permits`, went to a
/// job that drains it.
pub open spec fn hands_out_permits<C, K>(
    s: BusView<C, K>,
    t: BusView<C, K>,
    i: usize,
    permits: usize,
) -> bool {
    &&& t.channels[i as int].permits == 0
    &&& t.pool == (PoolView {
        jobs: s.pool.jobs + Seq::new(permits as nat, |k: int| Job::Run(i)),
        ..s.pool
    })
}

/// `s` became `t` when `env` came to stage `i`, which was as `c` then, and this
/// was the outcome. One that is let in is drained by as many workers as the
/// stage may have.
pub open spec fn comes_to<C, K>(
    s: BusView<C, K>,
    t: BusView<C, K>,
    i: usize,
    c: ChannelView<C>,
    env: EnvelopeView,
    expired: bool,
    callback: bool,
    outcome: PublishView,
) -> bool {
    let d = t.channels[i as int];
    let policy = c.cfg.backpressure;
    &&& t.channels == s.channels.update(i as int, d)
    &&& t == (BusView { channels: t.channels, callbacks: t.callbacks, pool: t.pool, ..s })
    &&& if !full(c) || policy == Backpressure::DropOldest {
        &&& outcome == PublishView::Accepted
        &&& takes_in(c, ChannelView { permits: c.permits, ..d }, env)
        &&& hands_out_permits(s, t, i, c.permits)
    } else if policy == Backpressure::Block && !expired {
        &&& outcome == (PublishView::Parked { channel: i, env, callback })
        &&& has_wait(c, d)
        &&& t.pool == s.pool
    } else {
        &&& outcome == PublishView::Refused(Refusal::Discarded)
        &&& turns_away(c, d)
        &&& t.pool == s.pool
    }
}

// -- stages ------------------------------------------------------------------

/// What becomes of an offer: with room, or where the oldest make room, the
/// envelope is queued; a full stage that blocks has its producer wait while
/// there is time; every other offer is turned away.
pub proof fn law_offer<C>(c: ChannelView<C>, env: EnvelopeView, expired: bool)
    requires
        c.cfg.valid(),
    ensures
        ({
            let d = c.offered(env, expired);
            let policy = c.cfg.backpressure;
            if !full(c) || policy == Backpressure::DropOldest {
                c.offer_outcome(expired) is Accepted && takes_in(c, d, env)
            } else if policy == Backpressure::Block && !expired {
                c.offer_outcome(expired) is Full && has_wait(c, d)
            } else {
                c.offer_outcome(expired) is Refused && turns_away(c, d)
            }
        }),
{
    let d = c.offered(env, expired);
    if !full(c) || c.cfg.backpressure == Backpressure::DropOldest {
        let gone = c.queue.len() + 1 - d.queue.len();
        assert(d.queue.drop_last() =~= c.queue.skip(gone));
        assert(gone == 0 ==> tally(c.dropped, 0) == c.dropped);
    }
}

/// A stage that nothing happened to has no envelope and no consumer, all its
/// permits, and has counted nothing.
pub proof fn law_fresh_stage<C>(name: Seq<char>, cfg: ChannelConfig)
    ensures
        ChannelView::<C>::fresh(name, cfg) == (ChannelView::<C> {
            name,
            cfg,
            queue: Seq::empty(),
            consumers: Seq::empty(),
            rr: 0,
            permits: cfg.concurrency,
            waiters: 0,
            enqueued: 0,
            delivered: 0,
            nacked: 0,
            dropped: 0,
            dead_lettered: 0,
            attempts: Map::empty(),
            in_flight: 0,
            refused: 0,
            woken: 0,
        }),
{
}

/// What is taken is the oldest; the rest stay in order, and nothing is counted
/// but that it is in flight.
pub proof fn law_poll<C>(c: ChannelView<C>)
    requires
        c.queue.len() > 0,
    ensures
        seq![c.queue[0]] + c.polled().queue == c.queue,
        c.polled() == (ChannelView {
            queue: c.polled().queue,
            in_flight: c.in_flight + 1,
            woken: c.polled().woken,
            ..c
        }),
        c.polled().woken == c.woken + if c.waiters > 0 {
            1int
        } else {
            0
        },
{
    assert(seq![c.queue[0]] + c.polled().queue =~= c.queue);
}

/// A producer that stops waiting is no longer counted, and one wakeup with it;
/// one that gives up is counted as dropped, and leaves its wakeup to another.
pub proof fn law_end_of_wait<C>(c: ChannelView<C>)
    requires
        c.waiters > 0,
    ensures
        c.unparked().waiters == c.waiters - 1,
        c.unparked().woken == if c.woken > 0 {
            c.woken - 1
        } else {
            0
        },
        c.unparked() == (ChannelView {
            waiters: c.unparked().waiters,
            woken: c.unparked().woken,
            ..c
        }),
        c.withdrawn().waiters == c.waiters - 1,
        turns_away(ChannelView { waiters: c.withdrawn().waiters, ..c }, c.withdrawn()),
{
}

/// An envelope in flight ends in one of three ways: it is delivered, it is
/// queued again behind all others, or it is a dead letter. A nack is counted
/// by itself.
pub proof fn law_end_of_flight<C>(c: ChannelView<C>, env: EnvelopeView)
    requires
        c.in_flight > 0,
    ensures
        c.acked().delivered == tally(c.delivered, 1),
        c.acked().in_flight == c.in_flight - 1,
        c.acked() == (ChannelView {
            delivered: c.acked().delivered,
            in_flight: c.acked().in_flight,
            ..c
        }),
        c.burying().dead_lettered == tally(c.dead_lettered, 1),
        c.burying().in_flight == c.in_flight - 1,
        c.burying() == (ChannelView {
            dead_lettered: c.burying().dead_lettered,
            in_flight: c.burying().in_flight,
            ..c
        }),
        c.requeued(env).in_flight == c.in_flight - 1,
        c.requeued(env) == (ChannelView {
            queue: c.queue.push(env),
            in_flight: c.requeued(env).in_flight,
            ..c
        }),
        c.nacking().nacked == tally(c.nacked, 1),
        c.nacking() == (ChannelView { nacked: c.nacking().nacked, ..c }),
{
}

/// Attempts are counted from 1 for an id that is not known, and one by one
/// after that; clearing them makes the id unknown. No other id is touched.
pub proof fn law_attempt_counts<C>(c: ChannelView<C>, id: Seq<char>)
    ensures
        c.next_attempt(id) == (1 + if c.attempts.contains_key(id) {
            c.attempts[id] as int
        } else {
            0
        }) % 0x1_0000_0000,
        c.bumped(id) == (ChannelView { attempts: c.attempts.insert(id, c.next_attempt(id)), ..c }),
        c.cleared(id) == (ChannelView { attempts: c.attempts.remove(id), ..c }),
        c.cleared(id).next_attempt(id) == 1,
        c.tracks_attempts() == (c.cfg.max_attempts > 1),
        c.forgetting(id) == if c.cfg.max_attempts > 1 {
            c.cleared(id)
        } else {
            c
        },
{
}

/// An envelope goes to the one consumer whose turn it is, after which it is
/// the turn of the next; or to all of them.
pub proof fn law_turns<C>(c: ChannelView<C>)
    requires
        c.consumers.len() > 0,
    ensures
        c.turned() == (ChannelView { rr: c.turned().rr, ..c }),
        c.cfg.delivery == Delivery::PointToPoint ==> {
            &&& c.selected() == seq![c.consumers[c.rr as int % c.consumers.len() as int]]
            &&& c.turned().rr == if c.rr < usize::MAX {
                c.rr + 1
            } else {
                0
            }
        },
        c.cfg.delivery == Delivery::PubSub ==> c.selected() == c.consumers && c.turned().rr == c.rr,
{
}

/// A consumer that joins is the last in turn.
pub proof fn law_joining<C>(c: ChannelView<C>, consumer: Arc<C>)
    ensures
        c.subscribed(consumer) == (ChannelView { consumers: c.consumers.push(consumer), ..c }),
{
}

/// The metrics are what was counted, and how many envelopes are queued.
pub proof fn law_stage_stats<C>(c: ChannelView<C>)
    requires
        c.queue.len() <= usize::MAX,
    ensures
        c.stats().depth == c.queue.len(),
        c.stats().enqueued == c.enqueued,
        c.stats().delivered == c.delivered,
        c.stats().nacked == c.nacked,
        c.stats().dropped == c.dropped,
        c.stats().dead_lettered == c.dead_lettered,
{
}

// -- publishing --------------------------------------------------------------

/// A published envelope comes to the stage that its slip names, and to no
/// other; it is refused, and nothing changes, where the bus does not accept,
/// where the slip names none, and where no stage has that name.
pub proof fn law_publish<C: Consumer, K>(
    s: BusView<C, K>,
    env: EnvelopeView,
    expired: bool,
    callback: bool,
)
    requires
        s.wf(),
    ensures
        ({
            let t = s.published(env, expired);
            let outcome = s.publish_outcome(env, expired, callback);
            &&& t.callbacks == s.callbacks
            &&& if !s.running || !s.accepting {
                t == s && outcome == PublishView::Refused(Refusal::NotAccepting)
            } else {
                match heading(env) {
                    None => t == s && outcome == PublishView::Refused(Refusal::NoRoute),
                    Some(name) => if s.index.contains_key(name) {
                        let i = s.index[name];
                        comes_to(
                            s,
                            t,
                            i,
                            s.channels[i as int],
                            under_way(env),
                            expired,
                            callback,
                            outcome,
                        )
                    } else {
                        t == s && outcome == PublishView::Refused(Refusal::NoChannel)
                    },
                }
            }
        }),
{
    if s.refusal(env) is None {
        let i = s.stage_of(env) as int;
        let c = s.channels[i];
        assert(s.frame_wf());
        assert(s.stage_wf(i));
        assert(env.started() == under_way(env));
        law_offer(c, env.started(), expired);
        let t = s.published(env, expired);
        assert(t.channels =~= s.channels.update(i, t.channels[i]));
        if s.publish_outcome(env, expired, callback) is Accepted {
            assert(s.channels[i].offered(env.started(), expired).queue.len() > 0);
        }
    }
}

/// To publish with a callback is to publish: the outcome is the same, and so
/// is the bus, but for the callback. That is kept, under the id of the
/// envelope, whether it is let in or has to wait; where it is refused, none is
/// kept under that id.
pub proof fn law_publish_with_callback<C: Consumer, K>(
    s: BusView<C, K>,
    env: EnvelopeView,
    expired: bool,
    on_complete: K,
)
    requires
        s.wf(),
    ensures
        ({
            let t = s.published_with_callback(env, expired, on_complete);
            let outcome = s.with_callbacks(
                s.callbacks.insert(env.id, on_complete),
            ).publish_outcome(env, expired, true);
            &&& outcome == s.publish_outcome(env, expired, true)
            &&& t == (BusView { callbacks: t.callbacks, ..s.published(env, expired) })
            &&& t.callbacks == if outcome is Refused {
                s.callbacks.remove(env.id)
            } else {
                s.callbacks.insert(env.id, on_complete)
            }
        }),
{
    let u = s.with_callbacks(s.callbacks.insert(env.id, on_complete));
    let t = s.published_with_callback(env, expired, on_complete);
    assert(s.callbacks.insert(env.id, on_complete).remove(env.id) =~= s.callbacks.remove(env.id));
    assert(u.published(env, expired) =~= (BusView {
        callbacks: u.callbacks,
        ..s.published(env, expired)
    }));
    assert(t =~= (BusView { callbacks: t.callbacks, ..s.published(env, expired) }));
}

/// A producer that waited comes to its stage again as one that waits no more.
/// Where it is let in, or waits on, its callback is kept. A bus that was
/// stopped turns it away.
pub proof fn law_retry<C: Consumer, K>(
    s: BusView<C, K>,
    i: usize,
    env: EnvelopeView,
    expired: bool,
    callback: bool,
)
    requires
        s.wf(),
        s.waited_for(i as int),
    ensures
        ({
            let t = s.retried(i, env, expired, callback);
            let outcome = s.retry_outcome(i, env, expired, callback);
            let c = s.channels[i as int];
            &&& t.callbacks == if callback && outcome is Refused {
                s.callbacks.remove(env.id)
            } else {
                s.callbacks
            }
            &&& if s.running {
                let b = ChannelView {
                    waiters: (c.waiters - 1) as usize,
                    woken: c.unparked().woken,
                    ..c
                };
                comes_to(s, t, i, b, env, expired, callback, outcome)
            } else {
                let d = t.channels[i as int];
                &&& outcome == PublishView::Refused(Refusal::NotAccepting)
                &&& t == (BusView {
                    channels: s.channels.update(i as int, d),
                    callbacks: t.callbacks,
                    ..s
                })
                &&& d.waiters == c.waiters - 1
                &&& turns_away(ChannelView { waiters: d.waiters, ..c }, d)
            }
        }),
{
    let k = i as int;
    let c = s.channels[k];
    let t = s.retried(i, env, expired, callback);
    assert(s.stage_wf(k));
    assert(t.channels =~= s.channels.update(k, t.channels[k]));
    if s.running {
        law_end_of_wait(c);
        law_offer(c.unparked(), env, expired);
        assert(c.unparked().offer_outcome(expired) is Accepted ==> c.unparked().offered(
            env,
            expired,
        ).queue.len() > 0);
    }
}

/// Whoever is told to wait may try again.
pub proof fn law_waiting_is_counted<C: Consumer, K>(s: BusView<C, K>, i: int)
    ensures
        s.waited_for(i) == (0 <= i < s.channels.len() && s.channels[i].waiters > 0),
        s.idle_drain(i) == (0 <= i < s.channels.len() && s.channels[i].in_flight < s.drains[i]),
{
}

// -- handling ----------------------------------------------------------------

/// The stage that the dead letters of `source` are routed to, if one was set
/// and is registered. Only names decide.
pub open spec fn routed_to<C, K>(s: BusView<C, K>, source: Seq<char>) -> Option<usize> {
    if s.dlq.contains_key(source) && s.index.contains_key(s.dlq[source]) {
        Some(s.index[s.dlq[source]])
    } else {
        None
    }
}

/// A dead letter is counted at its stage and leaves it. Where its stage has a
/// dead-letter channel, whatever stage that is, it is queued there if that
/// takes it, and that is drained by as many workers as it may have. No
/// callback is kept under its id.
pub proof fn law_dead_letter<C: Consumer, K>(s: BusView<C, K>, i: int, env: EnvelopeView)
    requires
        s.wf(),
        0 <= i < s.channels.len(),
        s.channels[i].in_flight > 0,
    ensures
        ({
            let t = s.buried(i, env);
            let c = s.channels[i];
            let left = c.burying();
            &&& left.dead_lettered == tally(c.dead_lettered, 1)
            &&& left.in_flight == c.in_flight - 1
            &&& left == (ChannelView {
                dead_lettered: left.dead_lettered,
                in_flight: left.in_flight,
                ..c
            })
            &&& t.callbacks == s.callbacks.remove(env.id)
            &&& t == (BusView { channels: t.channels, callbacks: t.callbacks, pool: t.pool, ..s })
            &&& match routed_to(s, c.name) {
                None => t.channels == s.channels.update(i, left) && t.pool == s.pool,
                Some(j) => {
                    let b = s.channels.update(i, left)[j as int];
                    let d = t.channels[j as int];
                    let kept = ChannelView { permits: b.permits, ..d };
                    &&& t.channels == s.channels.update(i, left).update(j as int, d)
                    &&& if !full(b) || b.cfg.backpressure == Backpressure::DropOldest {
                        takes_in(b, kept, env)
                    } else {
                        turns_away(b, kept)
                    }
                    &&& if d.queue.len() > 0 && !s.pool.stopped {
                        hands_out_permits(s, t, j, b.permits)
                    } else {
                        d.permits == b.permits && t.pool == s.pool
                    }
                },
            }
        }),
{
    let t = s.buried(i, env);
    let c = s.channels[i];
    let left = c.burying();
    assert(s.frame_wf());
    assert(s.stage_wf(i));
    law_end_of_flight(c, env);
    match routed_to(s, c.name) {
        None => {
            assert(t.channels =~= s.channels.update(i, left));
        },
        Some(j) => {
            assert(s.stage_wf(j as int));
            let b = s.channels.update(i, left)[j as int];
            law_offer(b, env, true);
            assert(t.channels =~= s.channels.update(i, left).update(j as int, t.channels[j as int]));
        },
    }
}

/// Dead letters go where they were routed to, by name, whatever the stage they
/// come from: wherever that stage has room or makes some, its queue ends with
/// the envelope.
pub proof fn law_dead_letters_reach_their_channel<C: Consumer, K>(
    s: BusView<C, K>,
    i: int,
    env: EnvelopeView,
)
    requires
        s.wf(),
        0 <= i < s.channels.len(),
        s.channels[i].in_flight > 0,
        s.dlq.contains_key(s.channels[i].name),
        s.index.contains_key(s.dlq[s.channels[i].name]),
    ensures
        ({
            let j = s.index[s.dlq[s.channels[i].name]] as int;
            let c = s.channels[j];
            let d = s.buried(i, env).channels[j];
            if c.queue.len() < c.cfg.capacity || c.cfg.backpressure == Backpressure::DropOldest {
                &&& d.queue.len() > 0
                &&& d.queue.last() == env
                &&& d.enqueued == tally(c.enqueued, 1)
                &&& s.running ==> d.permits == 0
            } else {
                &&& d.queue == c.queue
                &&& d.dropped == tally(c.dropped, 1)
            }
        }),
{
    assert(s.frame_wf());
    law_dead_letter(s, i, env);
}

/// A nack of the last attempt is counted, and makes the envelope a dead letter
/// whose attempts are forgotten.
pub proof fn law_last_nack<C: Consumer, K>(s: BusView<C, K>, flight: FlightView<C>)
    requires
        s.wf(),
        s.flying(flight),
        flight.attempt >= s.channels[flight.channel as int].cfg.max_attempts,
    ensures
        ({
            let k = flight.channel as int;
            let c = s.channels[k];
            let n = c.nacking().nacked;
            let b = ChannelView {
                nacked: n,
                attempts: if c.cfg.max_attempts > 1 {
                    c.attempts.remove(flight.env.id)
                } else {
                    c.attempts
                },
                ..c
            };
            &&& n == tally(c.nacked, 1)
            &&& s.settle_outcome(flight, false) == SettledView::<K>::DeadLettered
            &&& s.settled(flight, false) == (BusView {
                channels: s.channels.update(k, b),
                ..s
            }).buried(k, flight.env)
        }),
{
    law_end_of_flight(s.channels[flight.channel as int], flight.env);
}

/// A nack of any other attempt is counted, and puts the envelope, as the
/// consumers left it, behind all others in the queue of its stage. Nothing
/// else changes.
pub proof fn law_retried_nack<C: Consumer, K>(s: BusView<C, K>, flight: FlightView<C>)
    requires
        s.wf(),
        s.flying(flight),
        flight.attempt < s.channels[flight.channel as int].cfg.max_attempts,
    ensures
        ({
            let k = flight.channel as int;
            let c = s.channels[k];
            let d = s.settled(flight, false).channels[k];
            &&& s.settle_outcome(flight, false) == SettledView::<K>::Requeued
            &&& s.settled(flight, false) == (BusView { channels: s.channels.update(k, d), ..s })
            &&& d.queue.len() == c.queue.len() + 1
            &&& d.queue.last() == flight.env
            &&& d.queue.drop_last() == c.queue
            &&& d.nacked == tally(c.nacked, 1)
            &&& d.in_flight == c.in_flight - 1
            &&& d == (ChannelView {
                queue: d.queue,
                nacked: d.nacked,
                in_flight: d.in_flight,
                ..c
            })
        }),
{
    let k = flight.channel as int;
    let d = s.settled(flight, false).channels[k];
    assert(d.queue.drop_last() =~= s.channels[k].queue);
}

/// An ack is counted, and the attempts of the envelope are forgotten. With a
/// hop to come it is then published to that hop, and to that only, as any
/// producer with time to wait would, and its callback is kept. With none left
/// its callback is due, if it has one, and none is kept.
pub proof fn law_ack<C: Consumer, K>(s: BusView<C, K>, flight: FlightView<C>)
    requires
        s.wf(),
        s.flying(flight),
    ensures
        ({
            let k = flight.channel as int;
            let c = s.channels[k];
            let env = flight.env;
            let t = s.settled(flight, true);
            let b = ChannelView {
                delivered: c.acked().delivered,
                in_flight: (c.in_flight - 1) as nat,
                attempts: if c.cfg.max_attempts > 1 {
                    c.attempts.remove(env.id)
                } else {
                    c.attempts
                },
                ..c
            };
            let u = BusView { channels: s.channels.update(k, b), ..s };
            &&& b.delivered == tally(c.delivered, 1)
            &&& if env.slip.pending.len() > 0 {
                &&& heading(on_next_hop(env)) == Some(env.slip.pending[0].service)
                &&& t == u.published(on_next_hop(env), false)
                &&& t.callbacks == s.callbacks
                &&& s.settle_outcome(flight, true) == (SettledView::<K>::Forwarded {
                    outcome: u.publish_outcome(on_next_hop(env), false, false),
                    timeout_secs: 5,
                })
            } else {
                &&& t == (BusView { callbacks: s.callbacks.remove(env.id), ..u })
                &&& s.settle_outcome(flight, true) == if s.callbacks.contains_key(env.id) {
                    SettledView::Completed(
                        s.callbacks[env.id],
                        EnvelopeView {
                            slip: SlipView { current: None, pending: Seq::empty() },
                            ..env
                        },
                    )
                } else {
                    SettledView::<K>::Finished
                }
            }
        }),
{
    let k = flight.channel as int;
    let c = s.channels[k];
    let env = flight.env;
    law_end_of_flight(c, env);
    let d = c.acked().forgetting(env.id);
    let u = s.with_channel(k, d);
    assert(env.slip.pending.len() == 0 ==> env.slip.pending =~= Seq::empty());
    if env.slip.pending.len() > 0 {
        lemma_settled(s, flight, true);
        law_publish(u, on_next_hop(env), false, false);
    }
}

/// What may be settled is what was handed out: it is of a stage that has some
/// envelope in flight, and is a first attempt where attempts are not numbered.
pub proof fn law_what_flies<C: Consumer, K>(s: BusView<C, K>, flight: FlightView<C>)
    ensures
        s.flying(flight) == {
            &&& flight.channel < s.channels.len()
            &&& s.channels[flight.channel as int].in_flight > 0
            &&& s.channels[flight.channel as int].cfg.max_attempts > 1 || flight.attempt == 1
        },
{
}

/// An envelope taken from a stage without consumers is a dead letter. From any
/// other it goes to the consumer whose turn it is, or to all, with the number
/// of its attempt; only that number and the turn change.
pub proof fn law_process<C: Consumer, K>(s: BusView<C, K>, i: usize, env: EnvelopeView)
    requires
        s.wf(),
        i < s.channels.len(),
    ensures
        ({
            let c = s.channels[i as int];
            let t = s.processed(i as int, env);
            let d = t.channels[i as int];
            let n = c.consumers.len() as int;
            let numbered = c.cfg.max_attempts > 1;
            let attempt = if numbered {
                (1 + if c.attempts.contains_key(env.id) {
                    c.attempts[env.id] as int
                } else {
                    0
                }) % 0x1_0000_0000
            } else {
                1
            };
            if n == 0 {
                &&& t == s.buried(i as int, env)
                &&& s.process_outcome(i, env) == ProcessView::<C>::DeadLettered(env.id)
            } else {
                &&& s.process_outcome(i, env) == ProcessView::Deliver(
                    FlightView {
                        channel: i,
                        env,
                        attempt: attempt as u32,
                        consumers: if c.cfg.delivery == Delivery::PubSub {
                            c.consumers
                        } else {
                            seq![c.consumers[c.rr as int % n]]
                        },
                    },
                )
                &&& t == (BusView { channels: s.channels.update(i as int, d), ..s })
                &&& d == (ChannelView { rr: d.rr, attempts: d.attempts, ..c })
                &&& d.rr == if c.cfg.delivery == Delivery::PubSub {
                    c.rr as int
                } else if c.rr < usize::MAX {
                    c.rr + 1
                } else {
                    0
                }
                &&& d.attempts == if numbered {
                    c.attempts.insert(env.id, attempt as u32)
                } else {
                    c.attempts
                }
            }
        }),
{
}

/// A drain takes the oldest envelope while the bus is running, the batch is
/// not exhausted and something is queued, and has it processed.
pub proof fn law_drain_takes<C: Consumer, K>(s: BusView<C, K>, i: usize, left: usize)
    requires
        s.wf(),
        s.idle_drain(i as int),
    ensures
        s.drain_takes(i as int, left) == (s.running && left > 0 && s.channels[i as int].queue.len()
            > 0),
        s.drain_takes(i as int, left) ==> {
            let c = s.channels[i as int];
            let b = ChannelView {
                queue: c.queue.skip(1),
                in_flight: c.in_flight + 1,
                woken: c.polled().woken,
                ..c
            };
            let u = BusView { channels: s.channels.update(i as int, b), ..s };
            &&& s.drain_taken(i as int) == u.processed(i as int, c.queue[0])
            &&& s.drain_outcome(i) == u.process_outcome(i, c.queue[0])
        },
{
}

/// A drain that ends gives its permit back. While the bus is running and
/// something is queued, that and every other free permit go to jobs at once,
/// so that the stage is drained by as many workers as it may have.
pub proof fn law_drain_ends<C: Consumer, K>(s: BusView<C, K>, i: usize)
    requires
        s.wf(),
        s.idle_drain(i as int),
    ensures
        ({
            let t = s.drained(i as int);
            let c = s.channels[i as int];
            let d = t.channels[i as int];
            &&& t == (BusView {
                channels: s.channels.update(i as int, d),
                pool: t.pool,
                drains: s.drains.update(i as int, (s.drains[i as int] - 1) as nat),
                ..s
            })
            &&& d == (ChannelView { permits: d.permits, ..c })
            &&& if s.running && c.queue.len() > 0 {
                hands_out_permits(s, t, i, (c.permits + 1) as usize)
            } else {
                d.permits == c.permits + 1 && t.pool == s.pool
            }
        }),
{
    let t = s.drained(i as int);
    let d = t.channels[i as int];
    assert(s.stage_wf(i as int));
    assert(t.channels =~= s.channels.update(i as int, d));
}

/// A worker takes the oldest job, and with it the permit that the job held.
pub proof fn law_take_job<C: Consumer, K>(s: BusView<C, K>)
    requires
        s.pool.jobs.len() > 0,
    ensures
        ({
            let t = s.job_taken();
            &&& seq![s.pool.jobs[0]] + t.pool.jobs == s.pool.jobs
            &&& t == (BusView {
                pool: PoolView { jobs: t.pool.jobs, ..s.pool },
                drains: t.drains,
                ..s
            })
            &&& t.drains == match s.pool.jobs[0] {
                Job::Run(i) => s.drains.update(i as int, s.drains[i as int] + 1),
                Job::Stop => s.drains,
            }
        }),
{
    assert(seq![s.pool.jobs[0]] + s.job_taken().pool.jobs =~= s.pool.jobs);
}

// -- the registry ------------------------------------------------------------

/// A bus begins running and accepting, with nothing registered and nothing to
/// do.
pub proof fn law_fresh_bus<C, K>(workers: usize)
    ensures
        BusView::<C, K>::fresh(workers as int) == (BusView::<C, K> {
            channels: Seq::empty(),
            index: Map::empty(),
            dlq: Map::empty(),
            callbacks: Map::empty(),
            pool: PoolView { jobs: Seq::empty(), stopped: false, workers, size: workers },
            running: true,
            accepting: true,
            drains: Seq::empty(),
        }),
{
}

/// A consumer joins the stage of that name and no other. A stage that is made
/// for it waits with its producers, has room for 1024, one worker at a time,
/// one attempt and takes turns.
pub proof fn law_subscribe<C: Consumer, K>(s: BusView<C, K>, name: Seq<char>, consumer: Arc<C>)
    requires
        s.wf(),
        s.index.contains_key(name) || s.channels.len() < usize::MAX,
    ensures
        ({
            let t = s.subscribed(name, consumer);
            let i = t.index[name] as int;
            let u = s.registered(
                name,
                ChannelConfig {
                    capacity: 1024,
                    concurrency: 1,
                    delivery: Delivery::PointToPoint,
                    backpressure: Backpressure::Block,
                    max_attempts: 1,
                },
            );
            &&& t.index.contains_key(name)
            &&& t == (BusView { channels: t.channels, ..u })
            &&& t.channels == u.channels.update(i, t.channels[i])
            &&& t.channels[i].name == name
            &&& t.channels[i] == (ChannelView {
                consumers: u.channels[i].consumers.push(consumer),
                ..u.channels[i]
            })
        }),
{
    let t = s.subscribed(name, consumer);
    assert(s.frame_wf());
    assert(t.channels =~= s.registered(name, default_config()).channels.update(
        t.index[name] as int,
        t.channels[t.index[name] as int],
    ));
}

/// Dead letters of `source`, and of no other stage, are routed to `dlq` from
/// then on. A stage that is made for them has room for 4096 and drops the
/// oldest.
pub proof fn law_set_dead_letters<C: Consumer, K>(
    s: BusView<C, K>,
    source: Seq<char>,
    dlq: Seq<char>,
)
    requires
        s.wf(),
        s.index.contains_key(dlq) || s.channels.len() < usize::MAX,
    ensures
        ({
            let t = s.with_dead_letters(source, dlq);
            &&& t == (BusView {
                dlq: s.dlq.insert(source, dlq),
                ..s.registered(
                    dlq,
                    ChannelConfig {
                        capacity: 4096,
                        concurrency: 1,
                        delivery: Delivery::PointToPoint,
                        backpressure: Backpressure::DropOldest,
                        max_attempts: 1,
                    },
                )
            })
            &&& routed_to(t, source) == Some(t.index[dlq])
            &&& t.channels[t.index[dlq] as int].name == dlq
            &&& forall|other: Seq<char>|
                other != source && s.dlq.contains_key(other) && s.index.contains_key(s.dlq[other])
                    ==> #[trigger] routed_to(t, other) == routed_to(s, other)
        }),
{
    assert(s.frame_wf());
}

/// The metrics hold an entry for each stage, under its name, and no other.
pub proof fn law_stats<C: Consumer, K>(s: BusView<C, K>, i: int)
    requires
        s.wf(),
        0 <= i < s.channels.len(),
    ensures
        s.stats().dom() == s.index.dom(),
        s.stats().contains_key(s.channels[i].name),
        s.stats()[s.channels[i].name] == (Stats {
            depth: s.channels[i].queue.len() as usize,
            enqueued: s.channels[i].enqueued,
            delivered: s.channels[i].delivered,
            nacked: s.channels[i].nacked,
            dropped: s.channels[i].dropped,
            dead_lettered: s.channels[i].dead_lettered,
        }),
{
    assert(s.stage_wf(i));
    assert(s.stats().dom() =~= s.index.dom());
}

// -- lifecycle ---------------------------------------------------------------

/// Pausing and resuming change what is accepted, and nothing else; a bus that
/// was stopped cannot be resumed.
pub proof fn law_accepting<C, K>(s: BusView<C, K>)
    ensures
        s.paused() == (BusView { accepting: false, ..s }),
        s.resumed() == (BusView { accepting: s.running || s.accepting, ..s }),
{
}

/// Stopping the bus leaves its stages as they are: no envelope is handled any
/// more, no job is taken on, and each worker is told to stop, behind the jobs
/// that are queued.
pub proof fn law_stop<C, K>(s: BusView<C, K>)
    ensures
        s.halted() == (BusView {
            running: false,
            pool: PoolView {
                jobs: s.pool.jobs + Seq::new(s.pool.workers as nat, |k: int| Job::Stop),
                stopped: true,
                workers: 0,
                size: s.pool.size,
            },
            ..s
        }),
        s.stopped() == (BusView { accepting: false, ..s.halted() }),
{
    assert(s.halted().pool =~= s.pool.joined());
}

/// A bus is quiet exactly when nothing is queued, nothing is in flight, and no
/// worker or job has a stage to drain.
pub proof fn law_quiet<C: Consumer, K>(s: BusView<C, K>)
    requires
        s.wf(),
    ensures
        s.quiet() == (forall|i: int| #![trigger s.channels[i]]
            0 <= i < s.channels.len() ==> {
                &&& s.channels[i].queue.len() == 0
                &&& s.channels[i].in_flight == 0
                &&& s.drains[i] == 0
                &&& s.channels[i].permits == s.channels[i].cfg.concurrency
            }),
        s.empty() == (forall|i: int| #![trigger s.channels[i]]
            0 <= i < s.channels.len() ==> s.channels[i].queue.len() == 0),
{
    assert forall|i: int| #![trigger s.channels[i]] 0 <= i < s.channels.len() && s.quiet() implies {
        &&& s.channels[i].queue.len() == 0
        &&& s.channels[i].in_flight == 0
        &&& s.drains[i] == 0
        &&& s.channels[i].permits == s.channels[i].cfg.concurrency
    } by {
        assert(s.stage_wf(i));
    }
}

/// A sweep empties every queue, counts each envelope in it as dropped, wakes
/// one producer for each where any wait, and changes nothing else.
pub proof fn law_sweep<C: Consumer, K>(s: BusView<C, K>, i: int)
    requires
        s.wf(),
        0 <= i < s.channels.len(),
    ensures
        ({
            let c = s.channels[i];
            let d = s.swept().channels[i];
            let wakes = if c.waiters > 0 {
                c.queue.len() as int
            } else {
                0
            };
            &&& s.swept() == (BusView { channels: s.swept().channels, ..s })
            &&& s.swept().channels.len() == s.channels.len()
            &&& d.queue == Seq::<EnvelopeView>::empty()
            &&& d.dropped == tally(c.dropped, c.queue.len() as int)
            &&& d.woken == c.woken + wakes
            &&& d == (ChannelView { queue: d.queue, dropped: d.dropped, woken: d.woken, ..c })
            &&& s.sweep_wakes().len() == s.channels.len()
            &&& s.sweep_wakes()[i] == wakes
        }),
{
    assert(s.stage_wf(i));
    assert(s.swept().channels[i].queue =~= Seq::empty());
}

// -- parts -------------------------------------------------------------------

/// A setting of 0 counts as 1, and every other as it is.
pub proof fn law_clamp(n: int)
    requires
        n >= 0,
    ensures
        at_least_one(n) == if n == 0 {
            1
        } else {
            n
        },
{
}

/// A stage can be built unless its buffer is too large, or it is to evict
/// envelopes and has room for none. Only where envelopes are retried does the
/// buffer hold one more for each worker.
pub proof fn law_what_can_be_built(cfg: ChannelConfig)
    ensures
        cfg.slots() == ({
            let n = cfg.capacity + if cfg.max_attempts > 1 {
                cfg.concurrency as int
            } else {
                0
            };
            if n == 0 {
                1
            } else {
                n
            }
        }),
        cfg.valid() == (cfg.slots() <= usize::MAX / 512 && !(cfg.capacity == 0 && cfg.backpressure
            == Backpressure::DropOldest)),
        MAX_SLOTS == usize::MAX / 512,
        default_config().valid(),
        dead_letter_config().valid(),
{
}

/// A slip that is started visits its first hop, and one that is advanced the
/// next; with none left it is completed. A hop that is added comes next. The
/// envelope keeps its id and content.
pub proof fn law_slip(env: EnvelopeView, route: RouteView)
    ensures
        env.target() == heading(env),
        heading(env) is Some ==> env.started() == under_way(env),
        heading(env) is None ==> env.started() == env,
        env.slip.pending.len() > 0 ==> env.advanced() == on_next_hop(env),
        env.slip.pending.len() == 0 ==> env.advanced() == (EnvelopeView {
            slip: SlipView { current: None, pending: Seq::empty() },
            ..env
        }),
        env.slip.with_route(route).current == env.slip.current,
        env.slip.with_route(route).pending.len() == env.slip.pending.len() + 1,
        env.slip.with_route(route).pending[0] == route,
        env.slip.with_route(route).pending.skip(1) == env.slip.pending,
{
    assert(env.slip.pending.len() == 0 ==> env.slip.pending =~= Seq::empty());
    assert(env.slip.with_route(route).pending.skip(1) =~= env.slip.pending);
}

/// An itinerary has one hop for each name, in order, and asks the same of
/// each.
pub proof fn law_itinerary(to: Seq<char>, slip: Seq<String>, k: int)
    requires
        0 <= k <= slip.len(),
    ensures
        ({
            let hops = itinerary(seq![to] + names(slip));
            &&& hops.len() == slip.len() + 1
            &&& hops[k].service == if k == 0 {
                to
            } else {
                slip[k - 1]@
            }
            &&& hops[k].operation == "RECEIVE"@
        }),
{
    assert(OP@ == "RECEIVE"@);
}

/// Each consumer has the envelope once, in order, as the one before it left
/// it, whatever the others answer.
pub proof fn law_every_consumer_receives<C: Consumer>(
    consumers: Seq<Arc<C>>,
    trace: Seq<Envelope>,
    acks: Seq<bool>,
)
    ensures
        handled(consumers, trace, acks) == {
            &&& acks.len() == consumers.len()
            &&& trace.len() == consumers.len() + 1
            &&& forall|i: int| #![trigger acks[i]]
                0 <= i < consumers.len() ==> consumers[i].handles(trace[i], trace[i + 1], acks[i])
        },
{
}

/// A closure answers what a call of it on that envelope may return, and may be
/// called on any.
pub proof fn law_closures_consume<F: Fn(&mut Envelope) -> bool + Send + Sync>(
    f: F,
    before: Envelope,
    after: Envelope,
    ack: bool,
)
    ensures
        f.handles(before, after, ack) == exists|envelope: &mut Envelope|
            *envelope == before && #[trigger] call_ensures(f, (envelope,), ack),
        f.ready() == forall|envelope: &mut Envelope| call_requires(f, (envelope,)),
{
}

/// A pool takes a job on at the back, and a stop for each worker likewise.
pub proof fn law_pool<J>(p: PoolView<J>, job: J)
    ensures
        p.with_job(job) == (PoolView { jobs: p.jobs.push(Job::Run(job)), ..p }),
        p.joined().jobs == p.jobs + Seq::new(p.workers as nat, |k: int| Job::<J>::Stop),
        p.joined() == (PoolView { jobs: p.joined().jobs, stopped: true, workers: 0, size: p.size }),
{
    assert(p.joined().jobs =~= p.jobs + Seq::new(p.workers as nat, |k: int| Job::<J>::Stop));
}

// -- in short ----------------------------------------------------------------

/// No permit stays idle when work comes in: after an envelope was let in, by a
/// producer, by one that waited, or by a worker that sends it on, its stage has
/// no free permit left, and a job for each that it had.
pub proof fn law_work_uses_every_permit<C: Consumer, K>(
    s: BusView<C, K>,
    env: EnvelopeView,
    expired: bool,
    callback: bool,
    i: usize,
    flight: FlightView<C>,
)
    requires
        s.wf(),
        i < s.channels.len(),
    ensures
        env.slip.current is Some && s.index.contains_key(env.slip.current.unwrap().service) && i
            == s.index[env.slip.current.unwrap().service] && s.publish_outcome(
            env,
            expired,
            callback,
        ) is Accepted ==> {
            let t = s.published(env, expired);
            &&& t.channels[i as int].permits == 0
            &&& t.pool.jobs.len() == s.pool.jobs.len() + s.channels[i as int].permits
        },
        env.slip.current is None && env.slip.pending.len() > 0 && s.index.contains_key(
            env.slip.pending[0].service,
        ) && i == s.index[env.slip.pending[0].service] && s.publish_outcome(
            env,
            expired,
            callback,
        ) is Accepted ==> {
            let t = s.published(env, expired);
            &&& t.channels[i as int].permits == 0
            &&& t.pool.jobs.len() == s.pool.jobs.len() + s.channels[i as int].permits
        },
        s.channels[i as int].waiters > 0 && s.retry_outcome(i, env, expired, callback) is Accepted
            ==> {
            let t = s.retried(i, env, expired, callback);
            &&& t.channels[i as int].permits == 0
            &&& t.pool.jobs.len() == s.pool.jobs.len() + s.channels[i as int].permits
        },
        s.flying(flight) && flight.env.slip.pending.len() > 0 && s.index.contains_key(
            flight.env.slip.pending[0].service,
        ) && i == s.index[flight.env.slip.pending[0].service] && s.settle_outcome(flight, true)
            == (SettledView::<K>::Forwarded {
            outcome: PublishView::Accepted,
            timeout_secs: 5,
        }) ==> {
            let t = s.settled(flight, true);
            &&& t.channels[i as int].permits == 0
            &&& t.channels[i as int].queue.last().id == flight.env.id
            &&& t.pool.jobs.len() == s.pool.jobs.len() + s.channels[i as int].permits
        },
{
    law_publish(s, env, expired, callback);
    if s.channels[i as int].waiters > 0 {
        law_retry(s, i, env, expired, callback);
    }
    if s.flying(flight) && flight.env.slip.pending.len() > 0 {
        let k = flight.channel as int;
        let c = s.channels[k];
        let u = s.with_channel(k, c.acked().forgetting(flight.env.id));
        law_ack(s, flight);
        lemma_settled(s, flight, true);
        law_publish(u, on_next_hop(flight.env), false, false);
    }
}

/// A callback is kept while its envelope may still finish: after a publish
/// that was not refused, through every try of a producer that waits, and over
/// every hop and every retry.
pub proof fn law_callback_is_kept<C: Consumer, K>(
    s: BusView<C, K>,
    env: EnvelopeView,
    expired: bool,
    on_complete: K,
    i: usize,
    callback: bool,
    flight: FlightView<C>,
    ack: bool,
)
    requires
        s.wf(),
    ensures
        !(s.publish_outcome(env, expired, true) is Refused) ==> {
            let t = s.published_with_callback(env, expired, on_complete);
            &&& t.callbacks.contains_key(env.id)
            &&& t.callbacks[env.id] == on_complete
        },
        forall|id: Seq<char>|
            id != env.id && #[trigger] s.callbacks.contains_key(id) ==> {
                let t = s.published_with_callback(env, expired, on_complete);
                &&& t.callbacks.contains_key(id)
                &&& t.callbacks[id] == s.callbacks[id]
            },
        s.published(env, expired).callbacks == s.callbacks,
        s.waited_for(i as int) && !(s.retry_outcome(i, env, expired, callback) is Refused)
            ==> s.retried(i, env, expired, callback).callbacks == s.callbacks,
        s.flying(flight) && ack && flight.env.slip.pending.len() > 0 ==> s.settled(
            flight,
            ack,
        ).callbacks == s.callbacks,
        s.flying(flight) && !ack && flight.attempt
            < s.channels[flight.channel as int].cfg.max_attempts ==> s.settled(
            flight,
            ack,
        ).callbacks == s.callbacks,
{
    law_publish(s, env, expired, true);
    law_publish_with_callback(s, env, expired, on_complete);
    if s.waited_for(i as int) {
        law_retry(s, i, env, expired, callback);
    }
    if s.flying(flight) && ack {
        law_ack(s, flight);
    }
}

/// What the operations return is what the model says: each outcome stands for
/// itself, with all that it carries.
pub proof fn law_outcomes_stand_for_themselves<C: Consumer, K>(
    why: Refusal,
    parked: Parked,
    flight: InFlight<C>,
    id: String,
    outcome: Publish,
    timeout_secs: u64,
    callback: K,
    env: Envelope,
)
    ensures
        Publish::Accepted@ == PublishView::Accepted,
        Publish::Refused(why)@ == PublishView::Refused(why),
        Publish::Parked(parked)@ == (PublishView::Parked {
            channel: parked.channel(),
            env: parked.env(),
            callback: parked.callback(),
        }),
        Process::<C>::DeadLettered(id)@ == ProcessView::<C>::DeadLettered(id@),
        Process::Deliver(flight)@ == ProcessView::Deliver(flight@),
        Settled::<K>::Requeued@ == SettledView::<K>::Requeued,
        Settled::<K>::DeadLettered@ == SettledView::<K>::DeadLettered,
        (Settled::<K>::Forwarded { outcome, timeout_secs })@ == (SettledView::<K>::Forwarded {
            outcome: outcome@,
            timeout_secs,
        }),
        Settled::Completed(callback, env)@ == SettledView::Completed(callback, env@),
        Settled::<K>::Finished@ == SettledView::<K>::Finished,
        env@.id == env.id@,
        env@.slip == env.dynamic_routing_slip@,
        env@.content == env.content,
{
}

/// What an offer hands back is what was offered.
pub proof fn law_offers_stand_for_themselves(outcome: Outcome, back: Envelope, env: EnvelopeView)
    ensures
        Offer::Accepted.is(outcome, env) == (outcome is Accepted),
        Offer::Refused.is(outcome, env) == (outcome is Refused),
        Offer::Full(back).is(outcome, env) == (outcome is Full && back@ == env),
{
}

/// A route stands for its service and operation.
pub proof fn law_routes_stand_for_themselves(route: Route)
    ensures
        route@ == (RouteView { service: route.service@, operation: route.operation@ }),
        opt_view(Some(&route)) == Some(route@),
        opt_view(None) is None,
{
}

} // verus!
