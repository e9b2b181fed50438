//! The parts of the bus, one step at a time.

use seda_bus::{
    envelope_payload, make_envelope, set_payload, target_service, Backpressure, Bus, Channel,
    ChannelConfig, Delivery, DrainStep, Envelope, InFlight, Job, NameMap, Offer, Parked, Pool,
    Process, Publish, Refusal, Settled, Shutdown,
};
use serde_json::Value;

type Handler = fn(&mut Envelope) -> bool;
type TestBus = Bus<Handler, u32>;

fn yes(_: &mut Envelope) -> bool {
    true
}

fn no(_: &mut Envelope) -> bool {
    false
}

fn rename(e: &mut Envelope) -> bool {
    set_payload(e, Value::from("seen"));
    true
}

fn cfg() -> ChannelConfig {
    ChannelConfig::default()
}

fn to(name: &str, id: &str) -> Envelope {
    make_envelope(id.to_string(), name, None, Vec::new())
}

fn bus_with(name: &str, cfg: ChannelConfig) -> TestBus {
    let mut bus = Bus::new(2, None);
    bus.channel(name, cfg);
    bus
}

fn refusal(outcome: Publish) -> Option<Refusal> {
    match outcome {
        Publish::Refused(why) => Some(why),
        _ => None,
    }
}

fn parked(outcome: Publish) -> Parked {
    match outcome {
        Publish::Parked(p) => p,
        _ => panic!("not parked"),
    }
}

fn first_flight(bus: &mut TestBus) -> InFlight<Handler> {
    match bus.next_job() {
        Some(Job::Run(drain)) => match bus.drain(drain) {
            DrainStep::Took { process: Process::Deliver(flight), .. } => flight,
            _ => panic!("nothing to deliver"),
        },
        _ => panic!("no drain"),
    }
}

fn polled(ch: &mut Channel<Handler>) -> Option<(String, bool)> {
    ch.poll().map(|(env, wake)| (env.id, wake))
}

// -- configuration ------------------------------------------------------------

#[test]
fn default_config_is_as_documented() {
    let c = ChannelConfig::default();
    assert_eq!(c.capacity, 1024);
    assert_eq!(c.concurrency, 1);
    assert_eq!(c.delivery, Delivery::PointToPoint);
    assert_eq!(c.backpressure, Backpressure::Block);
    assert_eq!(c.max_attempts, 1);
}

#[test]
fn builders_set_one_field_each() {
    let c = cfg()
        .capacity(7)
        .concurrency(3)
        .delivery(Delivery::PubSub)
        .backpressure(Backpressure::Reject)
        .max_attempts(9);
    assert_eq!((c.capacity, c.concurrency, c.max_attempts), (7, 3, 9));
    assert_eq!(c.delivery, Delivery::PubSub);
    assert_eq!(c.backpressure, Backpressure::Reject);
}

#[test]
fn config_validity() {
    assert!(cfg().is_valid());
    assert!(ChannelConfig { capacity: 0, ..cfg() }.is_valid());
    assert!(!ChannelConfig { capacity: 0, backpressure: Backpressure::DropOldest, ..cfg() }.is_valid());
    assert!(!cfg().capacity(usize::MAX).is_valid());
    assert!(cfg().concurrency(usize::MAX).is_valid());
    assert!(!cfg().concurrency(usize::MAX).max_attempts(2).is_valid());
}

#[test]
fn a_slot_is_as_small_as_the_size_limit_supposes() {
    assert!(std::mem::size_of::<Envelope>() + std::mem::size_of::<u64>() <= 256);
}

// -- envelopes ----------------------------------------------------------------

#[test]
fn slip_is_walked_in_order_and_then_completed() {
    let mut e = make_envelope("e".to_string(), "a", None, vec!["b".to_string(), "c".to_string()]);
    assert_eq!(target_service(&mut e), Some("a".to_string()));
    assert_eq!(target_service(&mut e), Some("a".to_string()));
    assert!(e.next_hop());
    assert_eq!(target_service(&mut e), Some("b".to_string()));
    assert!(e.next_hop());
    assert_eq!(target_service(&mut e), Some("c".to_string()));
    assert!(!e.next_hop());
    assert_eq!(target_service(&mut e), None);
}

#[test]
fn routes_carry_the_operation() {
    let mut e = to("a", "e");
    let route = e.dynamic_routing_slip.current_route().unwrap();
    assert_eq!((route.service.as_str(), route.operation.as_str()), ("a", "RECEIVE"));
    assert!(e.dynamic_routing_slip.next_route().is_none());
}

#[test]
fn a_route_added_later_is_visited_next() {
    let mut e = make_envelope("e".to_string(), "a", None, vec!["b".to_string()]);
    assert_eq!(target_service(&mut e), Some("a".to_string()));
    e.add_route("detour".to_string(), "RECEIVE".to_string());
    assert!(e.next_hop());
    assert_eq!(target_service(&mut e), Some("detour".to_string()));
    assert!(e.next_hop());
    assert_eq!(target_service(&mut e), Some("b".to_string()));
}

#[test]
fn payload_is_stored_and_replaced() {
    let mut e = make_envelope("e".to_string(), "a", Some(Value::from(1)), Vec::new());
    assert_eq!(envelope_payload(&e), Some(&Value::from(1)));
    set_payload(&mut e, Value::from("x"));
    assert_eq!(envelope_payload(&e), Some(&Value::from("x")));
    assert_eq!(envelope_payload(&to("a", "f")), None);
    assert_eq!(e.id(), "e");
}

// -- stages -------------------------------------------------------------------

#[test]
fn queue_is_first_in_first_out() {
    let mut ch: Channel<Handler> = Channel::new("q".to_string(), cfg().capacity(3));
    for id in ["1", "2", "3"] {
        assert!(matches!(ch.offer(to("q", id), false), Offer::Accepted));
    }
    assert_eq!(ch.depth(), 3);
    assert_eq!(polled(&mut ch), Some(("1".to_string(), false)));
    assert_eq!(polled(&mut ch), Some(("2".to_string(), false)));
    assert!(matches!(ch.offer(to("q", "4"), false), Offer::Accepted));
    assert_eq!(polled(&mut ch), Some(("3".to_string(), false)));
    assert_eq!(polled(&mut ch), Some(("4".to_string(), false)));
    assert_eq!(polled(&mut ch), None);
    assert_eq!(ch.stats().enqueued, 4);
}

#[test]
fn a_full_stage_answers_by_its_policy() {
    for (policy, depth, dropped) in [
        (Backpressure::Reject, 1, 1),
        (Backpressure::DropNewest, 1, 1),
        (Backpressure::DropOldest, 1, 1),
        (Backpressure::Block, 1, 0),
    ] {
        let mut ch: Channel<Handler> =
            Channel::new("q".to_string(), cfg().capacity(1).backpressure(policy));
        assert!(matches!(ch.offer(to("q", "old"), false), Offer::Accepted));
        let answer = ch.offer(to("q", "new"), false);
        assert_eq!((ch.stats().depth, ch.stats().dropped), (depth, dropped));
        match policy {
            Backpressure::Reject | Backpressure::DropNewest => {
                assert!(matches!(answer, Offer::Refused));
                assert_eq!(polled(&mut ch), Some(("old".to_string(), false)));
            }
            Backpressure::DropOldest => {
                assert!(matches!(answer, Offer::Accepted));
                assert_eq!(polled(&mut ch), Some(("new".to_string(), false)));
            }
            Backpressure::Block => {
                assert!(matches!(answer, Offer::Full(back) if back.id == "new"));
                assert_eq!(polled(&mut ch), Some(("old".to_string(), true)));
            }
        }
    }
}

#[test]
fn a_blocked_offer_that_ran_out_of_time_is_dropped() {
    let mut ch: Channel<Handler> = Channel::new("q".to_string(), cfg().capacity(1));
    assert!(matches!(ch.offer(to("q", "1"), true), Offer::Accepted));
    assert!(matches!(ch.offer(to("q", "2"), true), Offer::Refused));
    let s = ch.stats();
    assert_eq!((s.enqueued, s.dropped, s.depth), (1, 1, 1));
}

#[test]
fn a_stage_of_no_capacity_takes_nothing() {
    let none = ChannelConfig { capacity: 0, backpressure: Backpressure::Reject, ..cfg() };
    let mut ch: Channel<Handler> = Channel::new("q".to_string(), none);
    assert!(matches!(ch.offer(to("q", "1"), false), Offer::Refused));
    assert_eq!(ch.depth(), 0);
}

#[test]
fn a_retry_has_room_in_a_full_stage() {
    let mut ch: Channel<Handler> =
        Channel::new("q".to_string(), cfg().capacity(1).max_attempts(2).backpressure(Backpressure::Reject));
    ch.offer(to("q", "1"), false);
    let (env, _) = ch.poll().unwrap();
    ch.offer(to("q", "2"), false);
    ch.requeue(env);
    assert_eq!(ch.depth(), 2);
    assert!(matches!(ch.offer(to("q", "3"), false), Offer::Refused));
    assert_eq!(polled(&mut ch), Some(("2".to_string(), false)));
    assert_eq!(polled(&mut ch), Some(("1".to_string(), false)));
}

#[test]
fn attempts_are_numbered_by_id_and_forgotten() {
    let mut ch: Channel<Handler> = Channel::new("q".to_string(), cfg().max_attempts(3));
    assert_eq!(ch.bump_attempt("a"), 1);
    assert_eq!(ch.bump_attempt("a"), 2);
    assert_eq!(ch.bump_attempt("b"), 1);
    ch.clear_attempt("a");
    assert_eq!(ch.bump_attempt("a"), 1);
    assert_eq!(ch.bump_attempt("b"), 2);
}

#[test]
fn permits_are_as_many_as_the_concurrency() {
    let mut ch: Channel<Handler> = Channel::new("q".to_string(), cfg().concurrency(2));
    assert!(ch.try_acquire());
    assert!(ch.try_acquire());
    assert!(!ch.try_acquire());
    ch.release();
    assert!(ch.try_acquire());
}

#[test]
fn sweeping_drops_all_and_wakes_those_that_wait() {
    let mut ch: Channel<Handler> = Channel::new("q".to_string(), cfg().capacity(2));
    ch.offer(to("q", "1"), false);
    ch.offer(to("q", "2"), false);
    assert!(matches!(ch.offer(to("q", "3"), false), Offer::Full(_)));
    assert_eq!(ch.sweep(), 2);
    let s = ch.stats();
    assert_eq!((s.depth, s.dropped), (0, 2));
    assert_eq!(ch.sweep(), 0);
}

#[test]
fn consumers_take_turns() {
    let mut ch: Channel<u8> = Channel::new("q".to_string(), cfg());
    assert!(!ch.has_consumers());
    for c in [10u8, 20, 30] {
        ch.subscribe(std::sync::Arc::new(c));
    }
    let turns: Vec<u8> = (0..7).map(|_| *ch.select()[0]).collect();
    assert_eq!(turns, vec![10, 20, 30, 10, 20, 30, 10]);
}

#[test]
fn every_subscriber_is_selected() {
    let mut ch: Channel<u8> = Channel::new("q".to_string(), cfg().delivery(Delivery::PubSub));
    for c in [10u8, 20, 30] {
        ch.subscribe(std::sync::Arc::new(c));
    }
    let all: Vec<u8> = ch.select().iter().map(|c| **c).collect();
    assert_eq!(all, vec![10, 20, 30]);
    assert_eq!(ch.name(), "q");
    assert_eq!(ch.cfg().delivery, Delivery::PubSub);
}

// -- maps and pools -----------------------------------------------------------

#[test]
fn name_map_finds_what_was_put_in() {
    let mut m: NameMap<u32> = NameMap::new();
    for (i, name) in ["a", "b", "c"].iter().enumerate() {
        m.insert(name.to_string(), i as u32);
    }
    m.insert("b".to_string(), 7);
    assert_eq!(m.get("a"), Some(&0));
    assert_eq!(m.get("b"), Some(&7));
    assert_eq!(m.remove("a"), Some(0));
    assert_eq!(m.remove("a"), None);
    assert_eq!(m.get("a"), None);
    assert_eq!(m.get("c"), Some(&2));
    let mut rest = m.into_entries();
    rest.sort();
    assert_eq!(rest, vec![("b".to_string(), 7), ("c".to_string(), 2)]);
}

#[test]
fn pool_runs_jobs_before_it_stops() {
    let mut pool: Pool<u8> = Pool::new(2);
    assert_eq!(pool.size(), 2);
    assert!(pool.execute(1));
    assert!(pool.execute(2));
    assert_eq!(pool.join(), 2);
    assert!(!pool.execute(3));
    assert!(matches!(pool.take(), Some(Job::Run(1))));
    assert!(matches!(pool.take(), Some(Job::Run(2))));
    assert!(matches!(pool.take(), Some(Job::Stop)));
    assert!(matches!(pool.take(), Some(Job::Stop)));
    assert!(pool.take().is_none());
    assert_eq!(pool.join(), 0);
    assert_eq!(Pool::<u8>::new(0).size(), 1);
}

// -- the bus ------------------------------------------------------------------

#[test]
fn worker_count_falls_back_to_cores_then_to_four() {
    assert_eq!(TestBus::new(3, Some(8)).workers(), 3);
    assert_eq!(TestBus::new(0, Some(8)).workers(), 8);
    assert_eq!(TestBus::new(0, None).workers(), 4);
}

#[test]
fn each_refusal_has_its_reason() {
    let mut bus = bus_with("a", cfg().capacity(1).backpressure(Backpressure::Reject));
    assert_eq!(refusal(bus.publish(to("b", "1"), false)), Some(Refusal::NoChannel));
    assert_eq!(
        refusal(bus.publish(Envelope::document("2".to_string()), false)),
        Some(Refusal::NoRoute)
    );
    assert_eq!(refusal(bus.publish(to("a", "3"), false)), None);
    assert_eq!(refusal(bus.publish(to("a", "4"), false)), Some(Refusal::Discarded));
    bus.pause();
    assert_eq!(refusal(bus.publish(to("a", "5"), false)), Some(Refusal::NotAccepting));
}

#[test]
fn registering_twice_keeps_the_first() {
    let mut bus = bus_with("a", cfg().capacity(1).backpressure(Backpressure::Reject));
    bus.channel("a", cfg().capacity(100)).subscribe("a", yes);
    assert!(refusal(bus.publish(to("a", "1"), false)).is_none());
    assert_eq!(refusal(bus.publish(to("a", "2"), false)), Some(Refusal::Discarded));
}

#[test]
fn subscribing_creates_the_stage() {
    let mut bus: TestBus = Bus::new(1, None);
    bus.subscribe("fresh", yes);
    assert!(refusal(bus.publish(to("fresh", "1"), false)).is_none());
    assert_eq!(bus.get_stats().get("fresh").unwrap().enqueued, 1);
    assert!(bus.get_stats().get("other").is_none());
}

#[test]
fn a_stage_is_drained_by_no_more_workers_than_its_concurrency() {
    let mut bus = bus_with("a", cfg().concurrency(2));
    bus.subscribe("a", yes);
    for id in ["1", "2", "3"] {
        bus.publish(to("a", id), false);
    }
    assert!(matches!(bus.next_job(), Some(Job::Run(_))));
    assert!(matches!(bus.next_job(), Some(Job::Run(_))));
    assert!(bus.next_job().is_none());
}

#[test]
fn a_drain_hands_over_after_its_batch() {
    let mut bus = bus_with("a", cfg());
    bus.subscribe("a", yes);
    for i in 0..20 {
        bus.publish(to("a", &format!("{i}")), false);
    }
    let mut batches = Vec::new();
    while let Some(Job::Run(drain)) = bus.next_job() {
        let mut drain = drain;
        let mut handled = 0;
        while let DrainStep::Took { drain: rest, process, .. } = bus.drain(drain) {
            if let Process::Deliver(mut flight) = process {
                let ack = flight.deliver();
                bus.settle(flight, ack);
                handled += 1;
            }
            drain = rest;
        }
        batches.push(handled);
    }
    assert_eq!(batches, vec![16, 4]);
}

#[test]
fn a_waiting_producer_is_woken_and_let_in() {
    let mut bus = bus_with("a", cfg().capacity(1));
    bus.subscribe("a", yes);
    bus.publish(to("a", "1"), false);
    let waiting = parked(bus.publish(to("a", "2"), false));
    assert_eq!(waiting.stage(), 0);
    // Without room it waits on.
    let waiting = parked(bus.retry(waiting, false));
    let drain = match bus.next_job() {
        Some(Job::Run(drain)) => drain,
        _ => panic!("no drain"),
    };
    assert_eq!(drain.stage(), 0);
    match bus.drain(drain) {
        DrainStep::Took { wake, .. } => assert!(wake),
        DrainStep::Finished => panic!("nothing taken"),
    }
    assert!(matches!(bus.retry(waiting, false), Publish::Accepted));
    assert_eq!(bus.get_stats().get("a").unwrap().enqueued, 2);
}

#[test]
fn a_producer_that_waited_too_long_loses_envelope_and_callback() {
    let mut bus = bus_with("a", cfg().capacity(1));
    bus.subscribe("a", yes);
    bus.publish(to("a", "x"), false);
    let waiting = parked(bus.publish_with_callback(to("a", "x"), false, 5));
    assert_eq!(refusal(bus.retry(waiting, true)), Some(Refusal::Discarded));
    assert_eq!(bus.get_stats().get("a").unwrap().dropped, 1);
    // The first envelope has the same id, and finds no callback.
    let flight = first_flight(&mut bus);
    assert!(matches!(bus.settle(flight, true), Settled::Finished));
}

#[test]
fn completion_hands_the_callback_out_once() {
    let mut bus = bus_with("a", cfg());
    bus.subscribe("a", rename);
    bus.publish_with_callback(to("a", "x"), false, 5);
    let mut flight = first_flight(&mut bus);
    assert!(flight.deliver());
    match bus.settle(flight, true) {
        Settled::Completed(callback, env) => {
            assert_eq!(callback, 5);
            assert_eq!(envelope_payload(&env), Some(&Value::from("seen")));
        }
        _ => panic!("not completed"),
    }
    bus.publish(to("a", "x"), false);
    // The permit of the drain that was left is still held.
    assert!(bus.next_job().is_none());
}

#[test]
fn a_refused_publish_leaves_no_callback() {
    let mut bus = bus_with("a", cfg());
    bus.subscribe("a", yes);
    bus.pause();
    assert!(refusal(bus.publish_with_callback(to("a", "x"), false, 5)).is_some());
    bus.resume();
    bus.publish(to("a", "x"), false);
    let flight = first_flight(&mut bus);
    assert!(matches!(bus.settle(flight, true), Settled::Finished));
}

#[test]
fn an_acked_envelope_goes_on_to_the_next_stage() {
    let mut bus = bus_with("a", cfg());
    bus.subscribe("a", yes).subscribe("b", yes);
    bus.publish(make_envelope("x".to_string(), "a", None, vec!["b".to_string()]), false);
    let flight = first_flight(&mut bus);
    match bus.settle(flight, true) {
        Settled::Forwarded { outcome: Publish::Accepted, timeout_secs } => {
            assert_eq!(timeout_secs, 5);
        }
        _ => panic!("not forwarded"),
    }
    let stats = bus.get_stats();
    assert_eq!(stats.get("a").unwrap().delivered, 1);
    assert_eq!(stats.get("b").unwrap().depth, 1);
}

#[test]
fn a_nack_is_retried_and_the_last_one_is_not() {
    let mut bus = bus_with("a", cfg().max_attempts(2));
    bus.subscribe("a", no);
    bus.set_dead_letter_channel("a", "graves");
    bus.publish(to("a", "x"), false);
    let drain = match bus.next_job() {
        Some(Job::Run(drain)) => drain,
        _ => panic!("no drain"),
    };
    let (drain, mut flight) = match bus.drain(drain) {
        DrainStep::Took { drain, process: Process::Deliver(flight), .. } => (drain, flight),
        _ => panic!("nothing to deliver"),
    };
    let ack = flight.deliver();
    assert!(matches!(bus.settle(flight, ack), Settled::Requeued));
    let flight = match bus.drain(drain) {
        DrainStep::Took { process: Process::Deliver(flight), .. } => flight,
        _ => panic!("nothing to deliver"),
    };
    assert!(matches!(bus.settle(flight, false), Settled::DeadLettered));
    let stats = bus.get_stats();
    let s = stats.get("a").unwrap();
    assert_eq!((s.nacked, s.dead_lettered, s.delivered, s.depth), (2, 1, 0, 0));
    assert_eq!(stats.get("graves").unwrap().depth, 1);
}

#[test]
fn one_nack_among_subscribers_is_a_nack_and_all_receive() {
    let mut bus = bus_with("a", cfg().delivery(Delivery::PubSub));
    bus.subscribe("a", no).subscribe("a", rename);
    bus.publish_with_callback(to("a", "x"), false, 1);
    let mut flight = first_flight(&mut bus);
    assert!(!flight.deliver());
    match bus.settle(flight, true) {
        Settled::Completed(_, env) => {
            assert_eq!(envelope_payload(&env), Some(&Value::from("seen")));
        }
        _ => panic!("not completed"),
    }
}

#[test]
fn dead_letters_evict_older_ones() {
    let mut bus: TestBus = Bus::new(1, None);
    bus.set_dead_letter_channel("a", "graves");
    for i in 0..4097 {
        assert!(refusal(bus.publish(to("graves", &format!("{i}")), false)).is_none());
    }
    let stats = bus.get_stats();
    let s = stats.get("graves").unwrap();
    assert_eq!((s.depth, s.dropped, s.enqueued), (4096, 1, 4097));
}

#[test]
fn shutdown_waits_then_joins_and_is_final() {
    let mut bus = bus_with("a", cfg());
    bus.subscribe("a", yes);
    bus.publish(to("a", "1"), false);
    assert!(!bus.is_drained());
    assert!(matches!(bus.shutdown(false), Shutdown::Wait));
    assert_eq!(refusal(bus.publish(to("a", "2"), false)), Some(Refusal::NotAccepting));
    assert!(matches!(bus.await_drain(true), Shutdown::Join { workers: 2 }));
    bus.resume();
    assert_eq!(refusal(bus.publish(to("a", "3"), false)), Some(Refusal::NotAccepting));
    match bus.next_job() {
        Some(Job::Run(drain)) => assert!(matches!(bus.drain(drain), DrainStep::Finished)),
        _ => panic!("the job of the first envelope is lost"),
    }
    assert_eq!(bus.finish_shutdown(), (false, vec![0]));
    let stats = bus.get_stats();
    let s = stats.get("a").unwrap();
    assert_eq!((s.enqueued, s.dropped, s.depth), (1, 1, 0));
}

#[test]
fn stopping_at_once_leaves_the_queues() {
    let mut bus = bus_with("a", cfg());
    bus.publish(to("a", "1"), false);
    assert_eq!(bus.shutdown_now(), 2);
    assert_eq!(bus.get_stats().get("a").unwrap().depth, 1);
    assert_eq!(bus.shutdown_now(), 0);
}

#[test]
fn a_sweep_wakes_the_producers_that_wait() {
    let mut bus = bus_with("a", cfg().capacity(1));
    bus.publish(to("a", "1"), false);
    let waiting = parked(bus.publish(to("a", "2"), false));
    assert!(matches!(bus.shutdown(true), Shutdown::Join { .. }));
    assert_eq!(bus.finish_shutdown(), (false, vec![1]));
    // There is room, but the bus is stopped: nothing is let in to be stranded.
    assert_eq!(refusal(bus.retry(waiting, false)), Some(Refusal::NotAccepting));
    let stats = bus.get_stats();
    let s = stats.get("a").unwrap();
    assert_eq!((s.enqueued, s.dropped, s.depth), (1, 2, 0));
}

#[test]
fn a_consumer_that_panicked_has_nacked() {
    assert!(seda_bus::consumer::verdict(Some(true)));
    assert!(!seda_bus::consumer::verdict(Some(false)));
    assert!(!seda_bus::consumer::verdict(None));
}

fn next_drain(bus: &mut TestBus) -> seda_bus::Drain {
    match bus.next_job() {
        Some(Job::Run(drain)) => drain,
        _ => panic!("no drain"),
    }
}

fn take(bus: &mut TestBus, drain: seda_bus::Drain) -> (seda_bus::Drain, InFlight<Handler>) {
    match bus.drain(drain) {
        DrainStep::Took { drain, process: Process::Deliver(flight), .. } => (drain, flight),
        _ => panic!("nothing to deliver"),
    }
}

#[test]
fn a_shutdown_waits_for_an_envelope_that_is_retried() {
    let mut bus = bus_with("a", cfg().max_attempts(2));
    bus.subscribe("a", yes);
    bus.publish(to("a", "x"), false);
    let drain = next_drain(&mut bus);
    let (drain, flight) = take(&mut bus, drain);
    // The queue is empty, but the envelope may come back.
    assert_eq!(bus.get_stats().get("a").unwrap().depth, 0);
    assert!(matches!(bus.shutdown(false), Shutdown::Wait));
    assert!(matches!(bus.settle(flight, false), Settled::Requeued));
    assert!(matches!(bus.await_drain(false), Shutdown::Wait));
    let (drain, flight) = take(&mut bus, drain);
    assert!(matches!(bus.settle(flight, true), Settled::Finished));
    assert!(matches!(bus.await_drain(false), Shutdown::Wait));
    assert!(matches!(bus.drain(drain), DrainStep::Finished));
    assert!(bus.is_drained());
    assert!(matches!(bus.await_drain(false), Shutdown::Join { workers: 2 }));
    assert_eq!(bus.finish_shutdown(), (true, vec![0]));
    let stats = bus.get_stats();
    let s = stats.get("a").unwrap();
    assert_eq!((s.enqueued, s.delivered, s.nacked, s.dropped, s.depth), (1, 1, 1, 0, 0));
}

#[test]
fn a_nack_after_the_stop_is_accounted_for() {
    let mut bus = bus_with("a", cfg().max_attempts(2));
    bus.subscribe("a", no);
    bus.publish(to("a", "x"), false);
    let drain = next_drain(&mut bus);
    let (drain, flight) = take(&mut bus, drain);
    assert!(matches!(bus.shutdown(true), Shutdown::Join { .. }));
    assert!(matches!(bus.settle(flight, false), Settled::Requeued));
    assert!(matches!(bus.drain(drain), DrainStep::Finished));
    assert_eq!(bus.finish_shutdown(), (false, vec![0]));
    let stats = bus.get_stats();
    let s = stats.get("a").unwrap();
    assert_eq!((s.enqueued, s.delivered, s.dead_lettered, s.dropped, s.depth), (1, 0, 0, 1, 0));
}

#[test]
fn a_dead_letter_after_the_stop_is_accounted_for() {
    let mut bus = bus_with("a", cfg());
    bus.subscribe("a", no).set_dead_letter_channel("a", "graves");
    bus.publish(to("a", "x"), false);
    let drain = next_drain(&mut bus);
    let (drain, flight) = take(&mut bus, drain);
    assert!(matches!(bus.shutdown(true), Shutdown::Join { .. }));
    assert!(matches!(bus.settle(flight, false), Settled::DeadLettered));
    assert!(matches!(bus.drain(drain), DrainStep::Finished));
    assert_eq!(bus.finish_shutdown(), (false, vec![0, 0]));
    let stats = bus.get_stats();
    let s = stats.get("graves").unwrap();
    assert_eq!((s.enqueued, s.delivered, s.dropped, s.depth), (1, 0, 1, 0));
}

#[test]
fn an_ack_after_the_stop_has_drained() {
    let mut bus = bus_with("a", cfg());
    bus.subscribe("a", yes);
    bus.publish(to("a", "x"), false);
    let drain = next_drain(&mut bus);
    let (drain, flight) = take(&mut bus, drain);
    assert!(matches!(bus.shutdown(true), Shutdown::Join { .. }));
    assert!(matches!(bus.settle(flight, true), Settled::Finished));
    assert!(matches!(bus.drain(drain), DrainStep::Finished));
    assert_eq!(bus.finish_shutdown(), (true, vec![0]));
}

#[test]
fn a_second_shutdown_changes_nothing() {
    let mut bus = bus_with("a", cfg());
    bus.publish(to("a", "x"), false);
    assert!(matches!(bus.shutdown(true), Shutdown::Join { workers: 2 }));
    let drain = next_drain(&mut bus);
    assert!(matches!(bus.drain(drain), DrainStep::Finished));
    assert_eq!(bus.finish_shutdown(), (false, vec![0]));
    assert!(matches!(bus.shutdown(false), Shutdown::Join { workers: 0 }));
    assert_eq!(bus.finish_shutdown(), (true, vec![0]));
    let stats = bus.get_stats();
    let s = stats.get("a").unwrap();
    assert_eq!((s.enqueued, s.dropped, s.depth), (1, 1, 0));
}

#[test]
fn resuming_during_a_shutdown_holds() {
    let mut bus = bus_with("a", cfg());
    bus.subscribe("a", yes);
    bus.publish(to("a", "1"), false);
    assert!(matches!(bus.shutdown(false), Shutdown::Wait));
    assert_eq!(refusal(bus.publish(to("a", "2"), false)), Some(Refusal::NotAccepting));
    bus.resume();
    assert!(matches!(bus.await_drain(false), Shutdown::Wait));
    assert!(refusal(bus.publish(to("a", "3"), false)).is_none());
}

#[test]
fn registering_a_name_again_ignores_the_configuration() {
    let mut bus = bus_with("a", cfg().capacity(3));
    let unbuildable = ChannelConfig { capacity: usize::MAX, ..cfg() };
    assert!(!unbuildable.is_valid());
    assert!(bus.is_registered("a"));
    assert!(!bus.is_registered("b"));
    bus.channel("a", unbuildable);
    for id in ["1", "2", "3"] {
        assert!(refusal(bus.publish(to("a", id), false)).is_none());
    }
    parked(bus.publish(to("a", "4"), false));
    assert_eq!(bus.stage_name(0), "a");
}

#[test]
fn a_forward_waits_for_room_for_a_limited_time() {
    let mut bus = bus_with("a", cfg());
    bus.subscribe("a", yes).channel("b", cfg().capacity(1));
    bus.publish(to("b", "full"), false);
    bus.publish(make_envelope("x".to_string(), "a", None, vec!["b".to_string()]), false);
    let _ = next_drain(&mut bus);
    let drain = next_drain(&mut bus);
    let (_, flight) = take(&mut bus, drain);
    assert_eq!(flight.env().id, "x");
    match bus.settle(flight, true) {
        Settled::Forwarded { outcome, timeout_secs } => {
            assert_eq!(timeout_secs, seda_bus::FORWARD_TIMEOUT_SECS);
            let waiting = parked(outcome);
            assert_eq!(refusal(bus.retry(waiting, true)), Some(Refusal::Discarded));
        }
        _ => panic!("not forwarded"),
    }
    assert_eq!(bus.get_stats().get("b").unwrap().dropped, 1);
}

#[test]
fn offers_never_exceed_the_capacity_and_retries_may() {
    let mut bus = bus_with("a", cfg().capacity(2).max_attempts(2).backpressure(Backpressure::Reject));
    bus.subscribe("a", no);
    bus.publish(to("a", "1"), false);
    bus.publish(to("a", "2"), false);
    let drain = next_drain(&mut bus);
    let (_, flight) = take(&mut bus, drain);
    assert!(refusal(bus.publish(to("a", "3"), false)).is_none());
    assert_eq!(refusal(bus.publish(to("a", "4"), false)), Some(Refusal::Discarded));
    assert_eq!(bus.get_stats().get("a").unwrap().depth, 2);
    assert!(matches!(bus.settle(flight, false), Settled::Requeued));
    assert_eq!(bus.get_stats().get("a").unwrap().depth, 3);
}

#[test]
fn a_nacked_envelope_among_others_has_its_attempts() {
    fn only_x(e: &mut Envelope) -> bool {
        e.id != "x"
    }
    let mut bus = bus_with("a", cfg().max_attempts(3));
    bus.subscribe("a", only_x);
    for id in ["1", "x", "2", "3"] {
        bus.publish(to("a", id), false);
    }
    let mut order = Vec::new();
    let mut ends = Vec::new();
    while let Some(Job::Run(drain)) = bus.next_job() {
        let mut drain = drain;
        while let DrainStep::Took { drain: rest, process, .. } = bus.drain(drain) {
            if let Process::Deliver(mut flight) = process {
                order.push(flight.env().id.clone());
                let ack = flight.deliver();
                if let Settled::DeadLettered = bus.settle(flight, ack) {
                    ends.push(order.len());
                }
            }
            drain = rest;
        }
    }
    assert_eq!(order, ["1", "x", "2", "3", "x", "x"]);
    assert_eq!(ends, [6]);
    let stats = bus.get_stats();
    let s = stats.get("a").unwrap();
    assert_eq!((s.delivered, s.nacked, s.dead_lettered), (3, 3, 1));
}

#[test]
fn a_dead_letter_that_is_acked_later_calls_nobody() {
    let mut bus = bus_with("a", cfg());
    bus.subscribe("a", no).set_dead_letter_channel("a", "graves").subscribe("graves", yes);
    bus.publish_with_callback(to("a", "x"), false, 5);
    let drain = next_drain(&mut bus);
    let (_, flight) = take(&mut bus, drain);
    assert!(matches!(bus.settle(flight, false), Settled::DeadLettered));
    let drain = next_drain(&mut bus);
    assert_eq!(bus.stage_name(drain.stage()), "graves");
    let (_, flight) = take(&mut bus, drain);
    assert!(matches!(bus.settle(flight, true), Settled::Finished));
}

#[test]
fn a_callback_comes_after_the_last_hop_only() {
    let mut bus = bus_with("a", cfg());
    bus.subscribe("a", yes).subscribe("b", yes);
    let env = make_envelope("x".to_string(), "a", None, vec!["b".to_string()]);
    bus.publish_with_callback(env, false, 5);
    let drain = next_drain(&mut bus);
    let (_, flight) = take(&mut bus, drain);
    assert!(matches!(bus.settle(flight, true), Settled::Forwarded { .. }));
    let drain = next_drain(&mut bus);
    let (_, flight) = take(&mut bus, drain);
    assert!(matches!(bus.settle(flight, true), Settled::Completed(5, _)));
}

#[test]
fn consumers_share_what_is_handed_out() {
    fn first(e: &mut Envelope) -> bool {
        set_payload(e, Value::from(0));
        true
    }
    fn second(e: &mut Envelope) -> bool {
        set_payload(e, Value::from(1));
        true
    }
    fn third(e: &mut Envelope) -> bool {
        set_payload(e, Value::from(2));
        true
    }
    let mut bus = bus_with("a", cfg());
    bus.subscribe("a", first).subscribe("a", second).subscribe("a", third);
    for id in 0..8 {
        bus.publish(to("a", &id.to_string()), false);
    }
    let mut shares = [0, 0, 0];
    let mut drain = next_drain(&mut bus);
    while let DrainStep::Took { drain: rest, process, .. } = bus.drain(drain) {
        if let Process::Deliver(mut flight) = process {
            let ack = flight.deliver();
            let who = envelope_payload(flight.env()).and_then(Value::as_u64).unwrap();
            shares[who as usize] += 1;
            bus.settle(flight, ack);
        }
        drain = rest;
    }
    assert_eq!(shares, [3, 3, 2]);
}

#[test]
fn a_stage_without_consumers_names_its_dead_letter() {
    let mut bus = bus_with("a", cfg());
    bus.publish(to("a", "x"), false);
    let drain = next_drain(&mut bus);
    match bus.drain(drain) {
        DrainStep::Took { process: Process::DeadLettered(id), .. } => assert_eq!(id, "x"),
        _ => panic!("not a dead letter"),
    }
}

#[test]
fn a_pool_hands_out_every_job_once_and_stops_every_worker_once() {
    let mut pool: Pool<u32> = Pool::new(2);
    assert!(pool.execute(1));
    assert!(pool.execute(2));
    assert!(matches!(pool.take(), Some(Job::Run(1))));
    assert!(pool.execute(3));
    assert_eq!(pool.join(), 2);
    assert!(!pool.execute(4));
    assert_eq!(pool.join(), 0);
    assert!(matches!(pool.take(), Some(Job::Run(2))));
    assert!(matches!(pool.take(), Some(Job::Run(3))));
    assert!(matches!(pool.take(), Some(Job::Stop)));
    assert!(matches!(pool.take(), Some(Job::Stop)));
    assert!(pool.take().is_none());
    assert_eq!(pool.size(), 2);
}

#[test]
fn an_id_that_a_stage_remembers_is_called_back_once() {
    let policy = Backpressure::DropOldest;
    let mut bus = bus_with("a", cfg().capacity(1).max_attempts(3).backpressure(policy));
    bus.subscribe("a", yes);
    bus.publish(to("a", "x"), false);
    let drain = next_drain(&mut bus);
    let (drain, flight) = take(&mut bus, drain);
    assert!(matches!(bus.settle(flight, false), Settled::Requeued));
    // The retry is evicted, and its one attempt stays on record.
    bus.publish(to("a", "y"), false);
    bus.publish_with_callback(to("a", "x"), false, 5);
    assert_eq!(bus.get_stats().get("a").unwrap().dropped, 2);
    let (drain, flight) = take(&mut bus, drain);
    assert_eq!(flight.env().id, "x");
    assert!(matches!(bus.settle(flight, true), Settled::Completed(5, _)));
    bus.publish(to("a", "x"), false);
    let (_, flight) = take(&mut bus, drain);
    assert!(matches!(bus.settle(flight, true), Settled::Finished));
}

#[test]
fn what_leaves_a_queue_leaves_it_in_order() {
    let policy = Backpressure::DropOldest;
    let mut bus = bus_with("a", cfg().capacity(2).backpressure(policy));
    bus.subscribe("a", yes);
    for id in ["1", "2", "3"] {
        bus.publish(to("a", id), false);
    }
    let mut drain = next_drain(&mut bus);
    let mut order = Vec::new();
    while let DrainStep::Took { drain: rest, process, .. } = bus.drain(drain) {
        if let Process::Deliver(flight) = process {
            order.push(flight.env().id.clone());
            bus.settle(flight, true);
        }
        drain = rest;
    }
    assert_eq!(order, ["2", "3"]);
    assert_eq!(bus.get_stats().get("a").unwrap().dropped, 1);
}
