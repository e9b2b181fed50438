# seda_bus

A small, broker-less, staged message bus, verified with Verus.

Work is decomposed into stages connected by bounded queues. One shared worker
pool drains every stage; each stage has its own concurrency limit, back-pressure
policy, delivery mode and retry budget. Envelopes carry a routing slip of the
stages to visit.

- `src/` is the verified library: every decision of the bus as a step on plain
  state. `state.rs` is the mathematical model and `invariants.rs` shows that
  every step keeps it in order. `runs.rs` speaks of any sequence of steps, by
  however many producers and workers, and `journey.rs` follows one envelope
  through it. `laws.rs` states what the bus promises as a whole: first in, first
  out; every envelope handed out once; round-robin shares; no lost wakeup; no
  stranded work; bounded retries; one callback, after the last hop; every
  envelope accounted for at shutdown.
- `app/` runs it: threads, locks, clocks, and consumers that may panic.
- `tests/` drives the library from outside.
