//! The bus end to end: publish, drain, deliver, settle, shut down.

use std::sync::atomic::{AtomicUsize, Ordering};
use std::sync::mpsc::channel;
use std::sync::{Arc, Mutex};

use seda_bus::{
    envelope_payload, make_envelope, Backpressure, Bus, ChannelConfig, Consumer, Delivery, Drain,
    DrainStep, Envelope, InFlight, Job, Process, Publish, Settled, Shutdown, Stats,
};
use serde_json::Value;

type Handler = Box<dyn Fn(&mut Envelope) -> bool + Send + Sync>;
type Callback = Box<dyn FnOnce(&Envelope)>;
type TestBus = Bus<Handler, Callback>;

fn new_bus(workers: usize) -> TestBus {
    Bus::new(workers, None)
}

fn cfg() -> ChannelConfig {
    ChannelConfig::default()
}

fn env(to: &str, n: u32) -> Envelope {
    make_envelope(format!("{to}-{n}"), to, Some(Value::from(n)), Vec::new())
}

fn payload_u32(e: &Envelope) -> u32 {
    envelope_payload(e).and_then(Value::as_u64).unwrap() as u32
}

fn accepted(outcome: Publish) -> bool {
    matches!(outcome, Publish::Accepted)
}

fn stats(bus: &TestBus, name: &str) -> Stats {
    bus.get_stats().get(name).unwrap().clone()
}

/// Delivers an envelope and settles it, as a worker does.
fn finish(bus: &mut TestBus, flight: InFlight<Handler>) {
    let mut flight = flight;
    let ack = flight.deliver();
    match bus.settle(flight, ack) {
        Settled::Completed(callback, env) => callback(&env),
        Settled::Forwarded { outcome, .. } => {
            accepted(outcome);
        }
        _ => {}
    }
}

/// Takes a job and the first envelope of it, and stays with its consumer.
fn start_one(bus: &mut TestBus) -> Option<(Drain, InFlight<Handler>)> {
    match bus.next_job() {
        Some(Job::Run(drain)) => match bus.drain(drain) {
            DrainStep::Took { drain, process: Process::Deliver(flight), .. } => Some((drain, flight)),
            _ => None,
        },
        _ => None,
    }
}

fn run_drain(bus: &mut TestBus, drain: Drain) {
    let mut drain = drain;
    while let DrainStep::Took { drain: rest, process, .. } = bus.drain(drain) {
        if let Process::Deliver(flight) = process {
            finish(bus, flight);
        }
        drain = rest;
    }
}

/// Works until no job is left.
fn run(bus: &mut TestBus) {
    while let Some(Job::Run(drain)) = bus.next_job() {
        run_drain(bus, drain);
    }
}

/// A graceful shutdown with time to spare.
fn shutdown(bus: &mut TestBus) -> bool {
    let mut step = bus.shutdown(false);
    while let Shutdown::Wait = step {
        run(bus);
        step = bus.await_drain(false);
    }
    bus.finish_shutdown().0
}

fn counter(count: &Arc<AtomicUsize>) -> Handler {
    let count = Arc::clone(count);
    Box::new(move |_: &mut Envelope| {
        count.fetch_add(1, Ordering::SeqCst);
        true
    })
}

#[test]
fn point_to_point_round_robins() {
    let mut bus = new_bus(4);
    let a = Arc::new(AtomicUsize::new(0));
    let b = Arc::new(AtomicUsize::new(0));
    bus.channel("work", cfg().capacity(100));
    bus.subscribe("work", counter(&a));
    bus.subscribe("work", counter(&b));

    for i in 0..20 {
        assert!(accepted(bus.publish(env("work", i), false)));
    }
    assert!(shutdown(&mut bus));
    assert_eq!(a.load(Ordering::SeqCst), 10);
    assert_eq!(b.load(Ordering::SeqCst), 10);
}

#[test]
fn pub_sub_fans_out() {
    let mut bus = new_bus(4);
    let (tx, rx) = channel();
    bus.channel("events", cfg().capacity(100).delivery(Delivery::PubSub));
    for tag in ["a", "b", "c"] {
        let tx = tx.clone();
        bus.subscribe(
            "events",
            Box::new(move |e: &mut Envelope| tx.send((tag, payload_u32(e))).is_ok()),
        );
    }
    drop(tx);

    for i in 0..4u32 {
        bus.publish(env("events", i), false);
    }
    run(&mut bus);

    let mut got: Vec<(&str, u32)> =
        (0..12).map(|_| rx.try_recv().expect("fan-out message")).collect();
    shutdown(&mut bus);
    got.sort();
    assert_eq!(got.len(), 12);
    for tag in ["a", "b", "c"] {
        assert_eq!(got.iter().filter(|(t, _)| *t == tag).count(), 4);
    }
}

#[test]
fn routing_slip_visits_every_stage_in_order() {
    let mut bus = new_bus(4);
    let trail = Arc::new(Mutex::new(Vec::<String>::new()));
    for name in ["one", "two", "three"] {
        bus.channel(name, cfg().capacity(50));
        let trail = Arc::clone(&trail);
        let n = name.to_string();
        bus.subscribe(
            name,
            Box::new(move |_: &mut Envelope| {
                trail.lock().unwrap().push(n.clone());
                true
            }),
        );
    }

    let (tx, rx) = channel();
    bus.publish_with_callback(
        make_envelope(
            "trip".to_string(),
            "one",
            Some(Value::String("x".into())),
            vec!["two".to_string(), "three".to_string()],
        ),
        false,
        Box::new(move |_e| {
            let _ = tx.send(());
        }),
    );
    run(&mut bus);

    rx.try_recv().expect("completed");
    shutdown(&mut bus);
    assert_eq!(&*trail.lock().unwrap(), &["one", "two", "three"]);
}

/// Publishes ten envelopes while the only worker of a stage of capacity two
/// is busy with the first, and returns how many were let in.
fn saturate(bus: &mut TestBus, name: &str) -> usize {
    bus.subscribe(name, Box::new(|_: &mut Envelope| true));
    let mut let_in = accepted(bus.publish(env(name, 0), false)) as usize;
    let (drain, flight) = start_one(bus).unwrap();
    for i in 1..10 {
        let_in += accepted(bus.publish(env(name, i), false)) as usize;
    }
    finish(bus, flight);
    run_drain(bus, drain);
    let_in
}

#[test]
fn backpressure_reject_when_full() {
    let mut bus = new_bus(4);
    bus.channel(
        "slow",
        cfg().capacity(2).concurrency(1).backpressure(Backpressure::Reject),
    );
    let accepted = saturate(&mut bus, "slow");

    assert!(accepted <= 3, "accepted {accepted}");
    assert_eq!(accepted, 3);
    shutdown(&mut bus);
    assert!(stats(&bus, "slow").dropped >= 7);
    assert_eq!(stats(&bus, "slow").dropped, 7);
}

#[test]
fn drop_newest_behaves_like_reject() {
    let mut bus = new_bus(4);
    bus.channel(
        "dn",
        cfg().capacity(2).concurrency(1).backpressure(Backpressure::DropNewest),
    );
    let accepted = saturate(&mut bus, "dn");

    assert!(accepted <= 3, "accepted {accepted}");
    shutdown(&mut bus);
    assert!(stats(&bus, "dn").dropped >= 7);
}

#[test]
fn drop_oldest_evicts_instead_of_rejecting() {
    let mut bus = new_bus(4);
    let seen = Arc::new(Mutex::new(Vec::<u32>::new()));
    bus.channel(
        "do",
        cfg().capacity(2).concurrency(1).backpressure(Backpressure::DropOldest),
    );
    {
        let seen = Arc::clone(&seen);
        bus.subscribe(
            "do",
            Box::new(move |e: &mut Envelope| {
                seen.lock().unwrap().push(payload_u32(e));
                true
            }),
        );
    }

    let mut stuck = None;
    for i in 0..10 {
        assert!(
            accepted(bus.publish(env("do", i), false)),
            "DropOldest must always admit the newest envelope"
        );
        assert!(
            stats(&bus, "do").depth <= 2,
            "depth must never exceed capacity under DropOldest"
        );
        if i == 0 {
            stuck = start_one(&mut bus);
        }
    }
    let (drain, flight) = stuck.unwrap();
    finish(&mut bus, flight);
    run_drain(&mut bus, drain);
    shutdown(&mut bus);

    assert!(stats(&bus, "do").dropped >= 7, "dropped={}", stats(&bus, "do").dropped);
    assert_eq!(*seen.lock().unwrap(), vec![0, 8, 9]);
}

#[test]
fn nack_retries_then_dead_letters() {
    let mut bus = new_bus(4);
    let attempts = Arc::new(AtomicUsize::new(0));
    bus.channel("flaky", cfg().capacity(10).max_attempts(3));
    bus.channel("dead", cfg().capacity(10));
    bus.set_dead_letter_channel("flaky", "dead");

    let (tx, rx) = channel();
    bus.subscribe("dead", Box::new(move |_: &mut Envelope| tx.send(()).is_ok()));
    {
        let attempts = Arc::clone(&attempts);
        bus.subscribe(
            "flaky",
            Box::new(move |_: &mut Envelope| {
                attempts.fetch_add(1, Ordering::SeqCst);
                false
            }),
        );
    }

    bus.publish(env("flaky", 0), false);
    run(&mut bus);
    rx.try_recv().expect("dead-lettered");
    shutdown(&mut bus);

    assert_eq!(attempts.load(Ordering::SeqCst), 3);
    assert_eq!(stats(&bus, "flaky").dead_lettered, 1);
    assert_eq!(stats(&bus, "flaky").nacked, 3);
}

#[test]
fn nack_then_succeeds_on_final_attempt_clears_attempt_state() {
    let mut bus = new_bus(4);
    bus.channel("flaky2", cfg().capacity(10).max_attempts(3));
    let call_count = Arc::new(AtomicUsize::new(0));
    {
        let call_count = Arc::clone(&call_count);
        bus.subscribe(
            "flaky2",
            Box::new(move |_: &mut Envelope| {
                // Nack the first two calls of each envelope, then ack.
                call_count.fetch_add(1, Ordering::SeqCst) % 3 == 2
            }),
        );
    }

    let mut e = env("flaky2", 0);
    let fixed_id = "same-id-for-attempt-state-check".to_string();
    e.id = fixed_id.clone();
    assert!(accepted(bus.publish(e, false)));
    run(&mut bus);
    assert_eq!(call_count.load(Ordering::SeqCst), 3, "expected exactly 3 attempts");
    assert_eq!(stats(&bus, "flaky2").delivered, 1);
    assert_eq!(stats(&bus, "flaky2").dead_lettered, 0);

    // The same id again: it gets its own fresh attempts.
    let mut e2 = env("flaky2", 1);
    e2.id = fixed_id;
    assert!(accepted(bus.publish(e2, false)));
    assert_eq!(shutdown(&mut bus), true);
    assert_eq!(call_count.load(Ordering::SeqCst), 6);
    assert_eq!(stats(&bus, "flaky2").delivered, 2);
    assert_eq!(stats(&bus, "flaky2").dead_lettered, 0);
}

#[test]
fn no_consumers_dead_letters_immediately() {
    let mut bus = new_bus(4);
    bus.channel("nobody-home", cfg().capacity(10));
    bus.channel("dead2", cfg().capacity(10));
    bus.set_dead_letter_channel("nobody-home", "dead2");
    let (tx, rx) = channel();
    bus.subscribe("dead2", Box::new(move |_: &mut Envelope| tx.send(()).is_ok()));

    assert!(accepted(bus.publish(env("nobody-home", 0), false)));
    run(&mut bus);
    rx.try_recv().expect("dead-lettered immediately despite no consumers");
    shutdown(&mut bus);
    assert_eq!(stats(&bus, "nobody-home").dead_lettered, 1);
}

#[test]
fn shutdown_drains_queued_work() {
    let mut bus = new_bus(4);
    let done = Arc::new(AtomicUsize::new(0));
    bus.channel("drain", cfg().capacity(500).concurrency(4));
    bus.subscribe("drain", counter(&done));
    for i in 0..50u32 {
        bus.publish(env("drain", i), false);
    }
    assert!(matches!(bus.shutdown(false), Shutdown::Wait));
    run(&mut bus);
    assert!(matches!(bus.await_drain(false), Shutdown::Join { workers: 4 }));
    assert!(bus.finish_shutdown().0);
    assert_eq!(done.load(Ordering::SeqCst), 50);
}

#[test]
fn publish_after_pause_is_rejected() {
    let mut bus = new_bus(2);
    bus.channel("p", cfg().capacity(10));
    bus.subscribe("p", Box::new(|_: &mut Envelope| true));
    bus.pause();
    assert!(!accepted(bus.publish(env("p", 1), false)));
    bus.resume();
    assert!(accepted(bus.publish(env("p", 2), false)));
    shutdown(&mut bus);
}

#[test]
fn unknown_channel_returns_false() {
    let mut bus = new_bus(2);
    assert!(!accepted(bus.publish(env("nope", 1), false)));
    shutdown(&mut bus);
}

struct Counter(Arc<Mutex<Vec<u32>>>);
impl Consumer for Counter {
    fn receive(&self, e: &mut Envelope) -> bool {
        self.0.lock().unwrap().push(payload_u32(e));
        true
    }
}

#[test]
fn interleaved_producers_deliver_exactly_once() {
    let mut bus: Bus<Counter, ()> = Bus::new(8, None);
    let seen = Arc::new(Mutex::new(Vec::<u32>::new()));
    bus.channel("fan", cfg().capacity(5000).concurrency(8));
    bus.subscribe("fan", Counter(Arc::clone(&seen)));

    for i in 0..500u32 {
        for base in 0..6u32 {
            assert!(accepted(bus.publish(env("fan", base * 1000 + i), false)));
        }
    }
    // Eight workers at once, each with an envelope in flight.
    let mut busy = Vec::new();
    while let Some(Job::Run(drain)) = bus.next_job() {
        busy.push(drain);
    }
    assert_eq!(busy.len(), 8);
    while let Some(drain) = busy.pop() {
        match bus.drain(drain) {
            DrainStep::Took { drain, process: Process::Deliver(flight), .. } => {
                let mut flight = flight;
                let ack = flight.deliver();
                bus.settle(flight, ack);
                busy.insert(0, drain);
            }
            _ => {
                while let Some(Job::Run(drain)) = bus.next_job() {
                    busy.push(drain);
                }
            }
        }
    }
    assert!(matches!(bus.shutdown(false), Shutdown::Join { .. }));
    assert!(bus.finish_shutdown().0);

    let mut seen = seen.lock().unwrap().clone();
    assert_eq!(seen.len(), 3000);
    seen.sort_unstable();
    seen.dedup();
    assert_eq!(seen.len(), 3000);
}

#[test]
fn failing_consumer_does_not_stop_the_others() {
    let mut bus = new_bus(4);
    bus.channel("flaky-panic", cfg().capacity(50).concurrency(1));
    let delivered = Arc::new(Mutex::new(Vec::<u32>::new()));
    {
        let delivered = Arc::clone(&delivered);
        bus.subscribe(
            "flaky-panic",
            Box::new(move |e: &mut Envelope| {
                let n = payload_u32(e);
                if n % 3 == 0 {
                    return false;
                }
                delivered.lock().unwrap().push(n);
                true
            }),
        );
    }

    for i in 0..15u32 {
        assert!(accepted(bus.publish(env("flaky-panic", i), false)));
    }
    shutdown(&mut bus);

    let expected: Vec<u32> = (0..15).filter(|n| n % 3 != 0).collect();
    assert_eq!(*delivered.lock().unwrap(), expected);
    assert_eq!(stats(&bus, "flaky-panic").dead_lettered, 5);
}

#[test]
fn shutdown_accounts_for_every_envelope_even_on_timeout() {
    let mut bus = new_bus(4);
    let delivered = Arc::new(AtomicUsize::new(0));
    bus.channel("slow-drain", cfg().capacity(50).concurrency(2));
    bus.subscribe("slow-drain", counter(&delivered));
    let total = 20u32;
    for i in 0..total {
        assert!(accepted(bus.publish(env("slow-drain", i), false)));
    }
    let first = start_one(&mut bus).unwrap();
    let second = start_one(&mut bus).unwrap();
    assert!(matches!(bus.shutdown(true), Shutdown::Join { workers: 4 }));
    // The workers end what they are at, and find the bus stopped.
    for (drain, flight) in [first, second] {
        finish(&mut bus, flight);
        assert!(matches!(bus.drain(drain), DrainStep::Finished));
    }
    run(&mut bus);
    assert!(!bus.finish_shutdown().0);
    let s = stats(&bus, "slow-drain");
    assert_eq!(
        s.delivered + s.dead_lettered + s.dropped,
        total as u64,
        "shutdown must account for every envelope, not strand any of them: {s:?}"
    );
    assert_eq!((s.delivered, s.dropped, s.depth), (2, 18, 0));
}

#[test]
fn shutdown_accounts_for_every_envelope_when_it_drains_in_time() {
    let mut bus = new_bus(4);
    bus.channel("fast-drain", cfg().capacity(50).concurrency(4));
    bus.subscribe("fast-drain", Box::new(|_: &mut Envelope| true));
    let total = 20u32;
    for i in 0..total {
        assert!(accepted(bus.publish(env("fast-drain", i), false)));
    }
    let drained = shutdown(&mut bus);
    assert!(drained, "expected a generous timeout to actually drain");
    let s = stats(&bus, "fast-drain");
    assert_eq!(s.delivered + s.dead_lettered + s.dropped, total as u64);
    assert_eq!(s.dropped, 0, "nothing should have been force-dropped when it drained normally");
}

#[test]
fn invalid_channel_config_clamps_to_documented_minimums() {
    let c = ChannelConfig::default().capacity(0).concurrency(0).max_attempts(0);
    assert_eq!(c.capacity, 1);
    assert_eq!(c.concurrency, 1);
    assert_eq!(c.max_attempts, 1);

    let mut bus = new_bus(2);
    bus.channel("clamped", c);
    bus.subscribe("clamped", Box::new(|_: &mut Envelope| true));
    assert!(accepted(bus.publish(env("clamped", 0), false)));
    assert!(shutdown(&mut bus));
    assert_eq!(stats(&bus, "clamped").delivered, 1);
}

#[test]
fn repeated_bus_lifecycles_do_not_leak_threads() {
    for i in 0..25 {
        let mut bus = new_bus(4);
        bus.channel("cycle", cfg().capacity(10));
        bus.subscribe("cycle", Box::new(|_: &mut Envelope| true));
        assert!(accepted(bus.publish(env("cycle", i), false)));
        assert!(shutdown(&mut bus), "cycle {i} failed to drain");
        // Every worker is told to stop, once.
        for _ in 0..4 {
            assert!(matches!(bus.next_job(), Some(Job::Stop)));
        }
        assert!(bus.next_job().is_none());
    }
}
