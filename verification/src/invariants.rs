//! Every step keeps the invariants.

use crate::channel::{counted, ChannelView, Outcome};
use crate::config::ChannelConfig;
use crate::consumer::Consumer;
use crate::envelope::EnvelopeView;
use crate::pool::Job;
use crate::state::{drain_jobs, BusView, FlightView};
use std::sync::Arc;
use vstd::prelude::*;

verus! {

/// A counter is off by the number of times that it wrapped around.
proof fn lemma_counted(n: u64, k: nat) -> (laps: int)
    ensures
        counted(n, k) == n + k - laps * 0x1_0000_0000_0000_0000,
{
    (n + k) / 0x1_0000_0000_0000_0000
}

/// Laps of a counter do not show in the balance.
proof fn lemma_balance(before: int, after: int, laps: int)
    requires
        before % 0x1_0000_0000_0000_0000 == 0,
        after == before + laps * 0x1_0000_0000_0000_0000,
    ensures
        after % 0x1_0000_0000_0000_0000 == 0,
{
}

/// Offering an envelope keeps the counts and the room for retries in order.
proof fn lemma_offered_counts<C>(c: ChannelView<C>, env: EnvelopeView, expired: bool)
    requires
        c.cfg.valid(),
        c.roomy(),
        c.accounted(),
        c.in_flight <= c.cfg.concurrency,
    ensures
        c.offered(env, expired).roomy(),
        c.offered(env, expired).accounted(),
        !(c.offer_outcome(expired) is Accepted) ==> c.offered(env, expired).queue == c.queue,
{
    let d = c.offered(env, expired);
    match c.offer_outcome(expired) {
        Outcome::Accepted => {
            let laps = lemma_counted(c.enqueued, 1);
            if c.has_room() {
                lemma_balance(c.balance(), d.balance(), laps);
            } else {
                let n = (c.queue.len() - c.cfg.capacity + 1) as nat;
                let more = lemma_counted(c.dropped, n);
                lemma_balance(c.balance(), d.balance(), laps - more);
            }
        },
        Outcome::Refused => {
            let laps = lemma_counted(c.dropped, 1);
            lemma_balance(c.balance(), d.balance(), -laps);
        },
        Outcome::Full => {},
    }
}

/// Offering an envelope keeps a stage in order.
pub(crate) proof fn lemma_offered<C>(c: ChannelView<C>, env: EnvelopeView, expired: bool)
    requires
        c.wf(),
    ensures
        c.offered(env, expired).wf(),
        !(c.offer_outcome(expired) is Accepted) ==> c.offered(env, expired).queue == c.queue,
{
    lemma_offered_counts(c, env, expired);
}

/// So does a second try after waiting for room.
pub(crate) proof fn lemma_offered_again<C>(c: ChannelView<C>, env: EnvelopeView, expired: bool)
    requires
        c.wf(),
        c.waiters > 0,
    ensures
        c.unparked().offered(env, expired).wf(),
        !(c.unparked().offer_outcome(expired) is Accepted) ==> c.unparked().offered(
            env,
            expired,
        ).queue == c.queue,
{
    assert(c.unparked().balance() == c.balance());
    lemma_offered_counts(c.unparked(), env, expired);
}

/// Taking an envelope from the queue keeps a stage in order.
pub(crate) proof fn lemma_polled<C>(c: ChannelView<C>)
    requires
        c.wf(),
        c.queue.len() > 0,
        c.in_flight < c.cfg.concurrency,
    ensures
        c.polled().wf(),
{
}

/// Ending the flight of an envelope keeps a stage in order.
pub(crate) proof fn lemma_landed<C>(c: ChannelView<C>, env: EnvelopeView)
    requires
        c.wf(),
        c.in_flight > 0,
    ensures
        c.acked().wf(),
        c.burying().wf(),
        c.nacking().wf(),
        c.tracks_attempts() ==> c.requeued(env).wf(),
{
    let laps = lemma_counted(c.delivered, 1);
    lemma_balance(c.balance(), c.acked().balance(), -laps);
    let laps = lemma_counted(c.dead_lettered, 1);
    lemma_balance(c.balance(), c.burying().balance(), -laps);
}

/// Discarding what is queued keeps a stage in order.
pub(crate) proof fn lemma_swept<C>(c: ChannelView<C>)
    requires
        c.wf(),
    ensures
        c.swept().wf(),
        c.swept().queue.len() == 0,
{
    let laps = lemma_counted(c.dropped, c.queue.len());
    lemma_balance(c.balance(), c.swept().balance(), -laps);
}

/// A stage that nothing happened to is in order.
pub(crate) proof fn lemma_fresh<C>(name: Seq<char>, cfg: ChannelConfig)
    requires
        cfg.valid(),
    ensures
        ChannelView::<C>::fresh(name, cfg).wf(),
{
}

/// Drain jobs of two sequences add up.
proof fn lemma_jobs_add(a: Seq<Job<usize>>, b: Seq<Job<usize>>, i: int)
    ensures
        drain_jobs(a + b, i) == drain_jobs(a, i) + drain_jobs(b, i),
    decreases b.len(),
{
    if b.len() == 0 {
        assert(a + b =~= a);
    } else {
        assert((a + b).drop_last() =~= a + b.drop_last());
        lemma_jobs_add(a, b.drop_last(), i);
    }
}

/// `n` drain jobs of stage `j` count for that stage alone.
proof fn lemma_jobs_repeat(n: nat, j: usize, i: int)
    requires
        0 <= i <= usize::MAX,
    ensures
        drain_jobs(Seq::new(n, |k: int| Job::Run(j)), i) == if i == j {
            n
        } else {
            0
        },
    decreases n,
{
    let jobs = Seq::new(n, |k: int| Job::Run(j));
    if n > 0 {
        assert(jobs.drop_last() =~= Seq::new((n - 1) as nat, |k: int| Job::Run(j)));
        lemma_jobs_repeat((n - 1) as nat, j, i);
    }
}

/// Stops drain nothing.
proof fn lemma_jobs_stop(n: nat, i: int)
    ensures
        drain_jobs(Seq::new(n, |k: int| Job::<usize>::Stop), i) == 0,
    decreases n,
{
    let jobs = Seq::new(n, |k: int| Job::<usize>::Stop);
    if n > 0 {
        assert(jobs.drop_last() =~= Seq::new((n - 1) as nat, |k: int| Job::<usize>::Stop));
        lemma_jobs_stop((n - 1) as nat, i);
    }
}

/// Taking the first job takes it off the count.
proof fn lemma_jobs_first(jobs: Seq<Job<usize>>, i: int)
    requires
        jobs.len() > 0,
        0 <= i <= usize::MAX,
    ensures
        drain_jobs(jobs, i) == drain_jobs(jobs.skip(1), i) + if jobs[0] == Job::Run(i as usize) {
            1nat
        } else {
            0nat
        },
{
    assert(jobs =~= jobs.take(1) + jobs.skip(1));
    lemma_jobs_add(jobs.take(1), jobs.skip(1), i);
    assert(jobs.take(1).drop_last() =~= Seq::empty());
    assert(drain_jobs(jobs.take(1).drop_last(), i) == 0);
    assert(jobs.take(1).last() == jobs[0]);
}

/// No job drains a stage that does not exist.
proof fn lemma_jobs_none(jobs: Seq<Job<usize>>, n: int)
    requires
        0 <= n <= usize::MAX,
        forall|k: int| #![trigger jobs[k]]
            0 <= k < jobs.len() ==> match jobs[k] {
                Job::Run(j) => j < n,
                Job::Stop => true,
            },
    ensures
        drain_jobs(jobs, n) == 0,
    decreases jobs.len(),
{
    if jobs.len() > 0 {
        assert forall|k: int| #![trigger jobs.drop_last()[k]] 0 <= k < jobs.drop_last().len() implies
            match jobs.drop_last()[k] {
                Job::Run(j) => j < n,
                Job::Stop => true,
            } by {
            assert(jobs[k] == jobs.drop_last()[k]);
        }
        lemma_jobs_none(jobs.drop_last(), n);
        assert(jobs.last() == jobs[jobs.len() - 1]);
    }
}

/// A stage may be replaced by one in order that has the same name, permits
/// and configuration.
pub(crate) proof fn lemma_with_channel<C: Consumer, K>(s: BusView<C, K>, i: int, c: ChannelView<C>)
    requires
        s.wf_but(i),
        0 <= i < s.channels.len(),
        c.wf(),
        c.name == s.channels[i].name,
        c.cfg == s.channels[i].cfg,
        c.permits == s.channels[i].permits,
        c.in_flight <= s.drains[i],
        forall|k: int| 0 <= k < c.consumers.len() ==> (#[trigger] c.consumers[k]).ready(),
    ensures
        s.with_channel(i, c).wf_but(i),
        s.with_channel(i, c).stage_served(i) ==> s.with_channel(i, c).wf(),
{
    let t = s.with_channel(i, c);
    assert forall|j: int| 0 <= j < t.channels.len() implies #[trigger] t.stage_wf(j) by {
        assert(s.stage_wf(j));
        assert(s.stage_wf(i));
    }
    assert forall|j: int| 0 <= j < t.channels.len() && j != i implies #[trigger] t.stage_served(j) by {
        assert(s.stage_served(j));
    }
    assert(t.frame_wf());
}

/// Scheduling a stage serves it.
pub(crate) proof fn lemma_scheduled<C: Consumer, K>(s: BusView<C, K>, i: int)
    requires
        s.wf_but(i),
        0 <= i < s.channels.len(),
    ensures
        s.scheduled(i).wf(),
{
    let t = s.scheduled(i);
    assert(s.stage_wf(i));
    if s.channels[i].queue.len() > 0 && !s.pool.stopped {
        let more = Seq::new(s.channels[i].permits as nat, |k: int| Job::Run(i as usize));
        assert forall|j: int| 0 <= j < t.channels.len() implies #[trigger] t.stage_wf(j) by {
            assert(s.stage_wf(j));
            lemma_jobs_add(s.pool.jobs, more, j);
            lemma_jobs_repeat(s.channels[i].permits as nat, i as usize, j);
        }
        assert forall|j: int| 0 <= j < t.channels.len() implies #[trigger] t.stage_served(j) by {
            if j != i {
                assert(s.stage_served(j));
            }
        }
        assert(t.frame_wf()) by {
            assert forall|k: int| #![trigger t.pool.jobs[k]] 0 <= k < t.pool.jobs.len() implies
                match t.pool.jobs[k] {
                    Job::Run(j) => j < t.channels.len(),
                    Job::Stop => true,
                } by {
                if k < s.pool.jobs.len() {
                    assert(t.pool.jobs[k] == s.pool.jobs[k]);
                } else {
                    assert(t.pool.jobs[k] == more[k - s.pool.jobs.len()]);
                }
            }
        }
    } else {
        assert forall|j: int| 0 <= j < t.channels.len() implies #[trigger] t.stage_served(j) by {
            if j != i {
                assert(s.stage_served(j));
            }
        }
    }
}

/// Callbacks come and go freely.
pub(crate) proof fn lemma_with_callbacks<C: Consumer, K>(s: BusView<C, K>, callbacks: Map<Seq<char>, K>)
    requires
        s.wf(),
    ensures
        s.with_callbacks(callbacks).wf(),
{
    let t = s.with_callbacks(callbacks);
    assert forall|j: int| 0 <= j < t.channels.len() implies #[trigger] t.stage_wf(j) by {
        assert(s.stage_wf(j));
    }
    assert forall|j: int| 0 <= j < t.channels.len() implies #[trigger] t.stage_served(j) by {
        assert(s.stage_served(j));
    }
}

/// Dead letters may be routed anywhere.
pub(crate) proof fn lemma_dlq<C: Consumer, K>(s: BusView<C, K>, dlq: Map<Seq<char>, Seq<char>>)
    requires
        s.wf(),
    ensures
        (BusView { dlq, ..s }).wf(),
{
    let t = BusView { dlq, ..s };
    assert forall|j: int| 0 <= j < t.channels.len() implies #[trigger] t.stage_wf(j) by {
        assert(s.stage_wf(j));
    }
    assert forall|j: int| 0 <= j < t.channels.len() implies #[trigger] t.stage_served(j) by {
        assert(s.stage_served(j));
    }
}

/// A step of one stage that adds nothing to its queue keeps the invariant.
pub(crate) proof fn lemma_quiet<C: Consumer, K>(s: BusView<C, K>, i: int, c: ChannelView<C>)
    requires
        s.wf(),
        0 <= i < s.channels.len(),
        c.wf(),
        c.name == s.channels[i].name,
        c.cfg == s.channels[i].cfg,
        c.permits == s.channels[i].permits,
        c.in_flight <= s.drains[i],
        c.consumers == s.channels[i].consumers,
        c.queue.len() <= s.channels[i].queue.len(),
    ensures
        s.with_channel(i, c).wf(),
{
    assert(s.stage_wf(i));
    assert(s.stage_served(i));
    lemma_with_channel(s, i, c);
}

/// An envelope may be offered to any stage.
pub(crate) proof fn lemma_entered<C: Consumer, K>(
    s: BusView<C, K>,
    i: int,
    env: EnvelopeView,
    expired: bool,
)
    requires
        s.wf(),
        0 <= i < s.channels.len(),
    ensures
        s.with_channel(i, s.channels[i].offered(env, expired)).wf_but(i),
        s.entered(i, env, expired).wf(),
{
    assert(s.stage_wf(i));
    let c = s.channels[i].offered(env, expired);
    lemma_offered(s.channels[i], env, expired);
    lemma_with_channel(s, i, c);
    if s.channels[i].offer_outcome(expired) is Accepted {
        lemma_scheduled(s.with_channel(i, c), i);
    } else {
        lemma_quiet(s, i, c);
    }
}

/// An envelope may be published at any time.
pub(crate) proof fn lemma_published<C: Consumer, K>(s: BusView<C, K>, env: EnvelopeView, expired: bool)
    requires
        s.wf(),
    ensures
        s.published(env, expired).wf(),
{
    if s.refusal(env) is None {
        lemma_entered(s, s.stage_of(env) as int, env.started(), expired);
    }
}

/// A producer that waited for room may try again.
pub(crate) proof fn lemma_retried<C: Consumer, K>(
    s: BusView<C, K>,
    i: int,
    env: EnvelopeView,
    expired: bool,
)
    requires
        s.wf(),
        s.waited_for(i),
    ensures
        s.with_channel(i, s.channels[i].unparked().offered(env, expired)).wf_but(i),
        s.with_channel(i, s.channels[i].unparked()).entered(i, env, expired).wf(),
        s.with_channel(i, s.channels[i].withdrawn()).wf(),
{
    assert(s.stage_wf(i));
    let w = s.channels[i].withdrawn();
    let laps = lemma_counted(s.channels[i].dropped, 1);
    lemma_balance(s.channels[i].balance(), w.balance(), -laps);
    lemma_quiet(s, i, w);
    let u = s.channels[i].unparked();
    let c = u.offered(env, expired);
    lemma_offered_again(s.channels[i], env, expired);
    lemma_with_channel(s, i, c);
    assert(s.with_channel(i, u).with_channel(i, c) =~= s.with_channel(i, c));
    if u.offer_outcome(expired) is Accepted {
        lemma_scheduled(s.with_channel(i, c), i);
    } else {
        lemma_quiet(s, i, c);
    }
}

/// An envelope in flight may become a dead letter.
pub(crate) proof fn lemma_buried<C: Consumer, K>(s: BusView<C, K>, i: int, env: EnvelopeView)
    requires
        s.wf(),
        0 <= i < s.channels.len(),
        s.channels[i].in_flight > 0,
    ensures
        s.with_channel(i, s.channels[i].burying()).wf(),
        s.grave_of(i) matches Some(j) ==> {
            let t = s.with_channel(i, s.channels[i].burying());
            t.with_channel(j as int, t.channels[j as int].offered(env, true)).wf_but(j as int)
        },
        s.buried(i, env).wf(),
        s.buried(i, env).idle_drain(i),
{
    assert(s.stage_wf(i));
    lemma_landed(s.channels[i], env);
    let t = s.with_channel(i, s.channels[i].burying());
    lemma_quiet(s, i, s.channels[i].burying());
    match s.grave_of(i) {
        Some(j) => {
            let j = j as int;
            let c = t.channels[j].offered(env, true);
            assert(t.stage_wf(j));
            lemma_offered(t.channels[j], env, true);
            lemma_with_channel(t, j, c);
            let u = t.with_channel(j, c);
            lemma_scheduled(u, j);
            lemma_with_callbacks(u.scheduled(j), u.scheduled(j).callbacks.remove(env.id));
        },
        None => {
            lemma_with_callbacks(t, t.callbacks.remove(env.id));
        },
    }
}

/// An envelope may finish a hop.
pub(crate) proof fn lemma_hopped<C: Consumer, K>(s: BusView<C, K>, env: EnvelopeView)
    requires
        s.wf(),
    ensures
        s.hopped(env).wf(),
{
    if env.slip.pending.len() > 0 {
        lemma_published(s, env.advanced(), false);
    } else {
        lemma_with_callbacks(s, s.callbacks.remove(env.id));
    }
}

/// An envelope in flight may be assigned to consumers.
pub(crate) proof fn lemma_processed<C: Consumer, K>(s: BusView<C, K>, i: int, env: EnvelopeView)
    requires
        s.wf(),
        0 <= i < s.channels.len(),
        s.channels[i].in_flight > 0,
    ensures
        s.processed(i, env).wf(),
{
    assert(s.stage_wf(i));
    let c = s.channels[i];
    if c.consumers.len() == 0 {
        lemma_buried(s, i, env);
    } else if c.tracks_attempts() {
        lemma_quiet(s, i, c.bumped(env.id).turned());
    } else {
        lemma_quiet(s, i, c.turned());
    }
}

/// An envelope in flight may be acked or nacked.
pub(crate) proof fn lemma_settled<C: Consumer, K>(s: BusView<C, K>, flight: FlightView<C>, ack: bool)
    requires
        s.wf(),
        s.flying(flight),
    ensures
        s.settled(flight, ack).wf(),
        ack ==> s.with_channel(
            flight.channel as int,
            s.channels[flight.channel as int].acked().forgetting(flight.env.id),
        ).wf(),
        !ack && flight.attempt >= s.channels[flight.channel as int].cfg.max_attempts ==> s.with_channel(
            flight.channel as int,
            s.channels[flight.channel as int].nacking().forgetting(flight.env.id),
        ).wf(),
        s.settled(flight, ack).idle_drain(flight.channel as int),
{
    let i = flight.channel as int;
    let c = s.channels[i];
    let env = flight.env;
    assert(s.stage_wf(i));
    lemma_landed(c, env);
    if ack {
        let d = c.acked().forgetting(env.id);
        lemma_quiet(s, i, d);
        lemma_hopped(s.with_channel(i, d), env);
    } else if flight.attempt < c.cfg.max_attempts {
        lemma_landed(c.nacking(), env);
        lemma_with_channel(s, i, c.nacking().requeued(env));
    } else {
        let d = c.nacking().forgetting(env.id);
        lemma_quiet(s, i, d);
        lemma_buried(s.with_channel(i, d), i, env);
    }
}

/// A drain without an envelope in flight may take one.
pub(crate) proof fn lemma_taken<C: Consumer, K>(s: BusView<C, K>, i: int)
    requires
        s.wf(),
        s.idle_drain(i),
        s.channels[i].queue.len() > 0,
    ensures
        s.with_channel(i, s.channels[i].polled()).wf(),
{
    assert(s.stage_wf(i));
    lemma_polled(s.channels[i]);
    lemma_quiet(s, i, s.channels[i].polled());
}

/// A drain without an envelope in flight may end.
pub(crate) proof fn lemma_drained<C: Consumer, K>(s: BusView<C, K>, i: int)
    requires
        s.wf(),
        s.idle_drain(i),
    ensures
        s.released(i).wf_but(i),
        s.drained(i).wf(),
{
    let c = s.channels[i];
    assert(s.stage_wf(i));
    let t = s.released(i);
    assert forall|j: int| 0 <= j < t.channels.len() implies #[trigger] t.stage_wf(j) by {
        assert(s.stage_wf(j));
    }
    assert forall|j: int| 0 <= j < t.channels.len() && j != i implies #[trigger] t.stage_served(j) by {
        assert(s.stage_served(j));
    }
    if s.running {
        lemma_scheduled(t, i);
    }
}

/// A worker takes the first job.
pub(crate) proof fn lemma_job_taken<C: Consumer, K>(s: BusView<C, K>)
    requires
        s.wf(),
        s.pool.jobs.len() > 0,
    ensures
        s.job_taken().wf(),
        s.pool.jobs[0] matches Job::Run(i) ==> s.job_taken().idle_drain(i as int),
{
    let t = s.job_taken();
    assert forall|j: int| 0 <= j < t.channels.len() implies #[trigger] t.stage_wf(j) by {
        assert(s.stage_wf(j));
        lemma_jobs_first(s.pool.jobs, j);
    }
    assert forall|j: int| 0 <= j < t.channels.len() implies #[trigger] t.stage_served(j) by {
        assert(s.stage_served(j));
    }
    assert forall|k: int| #![trigger t.pool.jobs[k]] 0 <= k < t.pool.jobs.len() implies
        match t.pool.jobs[k] {
            Job::Run(j) => j < t.channels.len(),
            Job::Stop => true,
        } by {
        assert(t.pool.jobs[k] == s.pool.jobs[k + 1]);
    }
    match s.pool.jobs[0] {
        Job::Run(i) => {
            assert(s.stage_wf(i as int));
        },
        Job::Stop => {},
    }
}

/// The bus may be stopped at any time.
pub(crate) proof fn lemma_halted<C: Consumer, K>(s: BusView<C, K>)
    requires
        s.wf(),
    ensures
        s.halted().wf(),
{
    let t = s.halted();
    let more = Seq::new(s.pool.workers as nat, |k: int| Job::<usize>::Stop);
    assert forall|j: int| 0 <= j < t.channels.len() implies #[trigger] t.stage_wf(j) by {
        assert(s.stage_wf(j));
        lemma_jobs_add(s.pool.jobs, more, j);
        lemma_jobs_stop(s.pool.workers as nat, j);
    }
    assert forall|k: int| #![trigger t.pool.jobs[k]] 0 <= k < t.pool.jobs.len() implies
        match t.pool.jobs[k] {
            Job::Run(j) => j < t.channels.len(),
            Job::Stop => true,
        } by {
        if k < s.pool.jobs.len() {
            assert(t.pool.jobs[k] == s.pool.jobs[k]);
        } else {
            assert(t.pool.jobs[k] == more[k - s.pool.jobs.len()]);
        }
    }
}

/// The bus may be paused and resumed at any time.
pub(crate) proof fn lemma_accepting<C: Consumer, K>(s: BusView<C, K>, accepting: bool)
    requires
        s.wf(),
    ensures
        (BusView { accepting, ..s }).wf(),
{
    let t = BusView { accepting, ..s };
    assert forall|j: int| 0 <= j < t.channels.len() implies #[trigger] t.stage_wf(j) by {
        assert(s.stage_wf(j));
    }
    assert forall|j: int| 0 <= j < t.channels.len() implies #[trigger] t.stage_served(j) by {
        assert(s.stage_served(j));
    }
}

/// All that is queued may be dropped at any time.
pub(crate) proof fn lemma_all_swept<C: Consumer, K>(s: BusView<C, K>)
    requires
        s.wf(),
    ensures
        s.swept().wf(),
        s.swept().empty(),
{
    let t = s.swept();
    assert forall|j: int| 0 <= j < t.channels.len() implies #[trigger] t.stage_wf(j) by {
        assert(s.stage_wf(j));
        lemma_swept(s.channels[j]);
    }
    assert forall|j: int| 0 <= j < t.channels.len() implies #[trigger] t.stage_served(j) by {
        assert(s.stage_wf(j));
        lemma_swept(s.channels[j]);
    }
    assert forall|j: int| 0 <= j < t.channels.len() implies (#[trigger] t.channels[j]).queue.len()
        == 0 by {
        assert(s.stage_wf(j));
        lemma_swept(s.channels[j]);
    }
}

/// A stage may be registered at any time.
pub(crate) proof fn lemma_registered<C: Consumer, K>(
    s: BusView<C, K>,
    name: Seq<char>,
    cfg: ChannelConfig,
)
    requires
        s.wf(),
        cfg.valid(),
        s.channels.len() < usize::MAX,
    ensures
        s.registered(name, cfg).wf(),
{
    let t = s.registered(name, cfg);
    let n = s.channels.len() as int;
    if !s.index.contains_key(name) {
        lemma_fresh::<C>(name, cfg);
        lemma_jobs_none(s.pool.jobs, n);
        assert forall|j: int| 0 <= j < t.channels.len() implies #[trigger] t.stage_wf(j) by {
            if j < n {
                assert(s.stage_wf(j));
                assert(t.channels[j] == s.channels[j]);
            }
        }
        assert forall|j: int| 0 <= j < t.channels.len() implies #[trigger] t.stage_served(j) by {
            if j < n {
                assert(s.stage_served(j));
            }
        }
        assert forall|k: int| #![trigger t.pool.jobs[k]] 0 <= k < t.pool.jobs.len() implies
            match t.pool.jobs[k] {
                Job::Run(j) => j < t.channels.len(),
                Job::Stop => true,
            } by {
            assert(t.pool.jobs[k] == s.pool.jobs[k]);
        }
    }
}

/// A consumer that is ready may join any stage.
pub(crate) proof fn lemma_subscribed<C: Consumer, K>(s: BusView<C, K>, i: int, consumer: Arc<C>)
    requires
        s.wf(),
        0 <= i < s.channels.len(),
        consumer.ready(),
    ensures
        s.with_channel(i, s.channels[i].subscribed(consumer)).wf(),
{
    let c = s.channels[i].subscribed(consumer);
    assert(s.stage_wf(i));
    assert(s.stage_served(i));
    assert forall|k: int| 0 <= k < c.consumers.len() implies (#[trigger] c.consumers[k]).ready() by {
        if k < s.channels[i].consumers.len() {
            assert(s.channels[i].consumers[k].ready());
        }
    }
    lemma_with_channel(s, i, c);
}

} // verus!
