//! What handles the envelopes of a stage.

use crate::envelope::Envelope;
use std::sync::Arc;
use vstd::prelude::*;

verus! {

/// A consumer handles envelopes for a stage. Return `true` to ack, `false` to
/// nack (the envelope is retried up to the stage's `max_attempts`, then
/// dead-lettered).
pub trait Consumer: Send + Sync {
    /// The consumer can take any envelope. One that says nothing of this can.
    open spec fn ready(&self) -> bool {
        true
    }

    /// What the consumer may make of the envelope `before`: leave it as
    /// `after` and answer `ack`. One that says nothing of this may do anything.
    open spec fn handles(&self, before: Envelope, after: Envelope, ack: bool) -> bool {
        true
    }

    fn receive(&self, envelope: &mut Envelope) -> (ack: bool)
        requires
            self.ready(),
        ensures
            self.handles(*old(envelope), *final(envelope), ack),
    ;
}

/// A closure over an envelope is a consumer. It answers what a call of it on
/// that envelope may return, and leaves what that call may leave; the latter
/// is known of a call of `receive`, not by `handles`.
impl<F> Consumer for F where F: Fn(&mut Envelope) -> bool + Send + Sync {
    open spec fn ready(&self) -> bool {
        forall|envelope: &mut Envelope| call_requires(*self, (envelope,))
    }

    open spec fn handles(&self, before: Envelope, after: Envelope, ack: bool) -> bool {
        exists|envelope: &mut Envelope|
            *envelope == before && #[trigger] call_ensures(*self, (envelope,), ack)
    }

    fn receive(&self, envelope: &mut Envelope) -> (ack: bool)
        ensures
            exists|e: &mut Envelope|
                *e == *old(envelope) && *final(e) == *final(envelope) && #[trigger] call_ensures(
                    *self,
                    (e,),
                    ack,
                ),
    {
        self(envelope)
    }
}

/// The consumers handled an envelope one after the other, each as the one
/// before it had left it: `trace` is the envelope between the calls, and
/// `acks` are the answers.
pub open spec fn handled<C: Consumer>(
    consumers: Seq<Arc<C>>,
    trace: Seq<Envelope>,
    acks: Seq<bool>,
) -> bool {
    &&& acks.len() == consumers.len()
    &&& trace.len() == consumers.len() + 1
    &&& forall|i: int| #![trigger acks[i]]
        0 <= i < consumers.len() ==> consumers[i].handles(trace[i], trace[i + 1], acks[i])
}

/// Hands the envelope to each consumer in turn. It is acked where all of them
/// ack; a nack keeps none of the others from receiving it.
pub fn deliver<C: Consumer>(consumers: &Vec<Arc<C>>, env: &mut Envelope) -> (ack: bool)
    requires
        forall|i: int| 0 <= i < consumers@.len() ==> (#[trigger] consumers@[i]).ready(),
    ensures
        exists|trace: Seq<Envelope>, acks: Seq<bool>| #[trigger]
            handled(consumers@, trace, acks) && trace[0] == *old(env) && trace.last() == *final(env)
                && ack == (forall|i: int| 0 <= i < acks.len() ==> acks[i]),
{
    let mut all: bool = true;
    let mut i: usize = 0;
    let ghost mut trace: Seq<Envelope> = seq![*env];
    let ghost mut acks: Seq<bool> = Seq::empty();
    while i < consumers.len()
        invariant
            forall|j: int| 0 <= j < consumers@.len() ==> (#[trigger] consumers@[j]).ready(),
            i <= consumers@.len(),
            handled(consumers@.take(i as int), trace, acks),
            trace[0] == *old(env),
            trace.last() == *env,
            all == (forall|j: int| 0 <= j < acks.len() ==> acks[j]),
        decreases consumers@.len() - i,
    {
        let ghost answered = acks;
        let ghost passed = trace;
        let ack = consumers[i].receive(env);
        proof {
            acks = acks.push(ack);
            trace = trace.push(*env);
            assert forall|j: int| #![trigger acks[j]] 0 <= j < i + 1 implies consumers@.take(
                i + 1,
            )[j].handles(trace[j], trace[j + 1], acks[j]) by {
                if j < i {
                    assert(acks[j] == answered[j]);
                    assert(trace[j] == passed[j] && trace[j + 1] == passed[j + 1]);
                    assert(consumers@.take(i as int)[j] == consumers@[j]);
                }
            }
            if all && ack {
                assert forall|j: int| 0 <= j < acks.len() implies acks[j] by {
                    if j < i {
                        assert(answered[j]);
                    }
                }
            } else if !all {
                let j = choose|j: int| 0 <= j < answered.len() && !answered[j];
                assert(!acks[j]);
            } else {
                assert(!acks[i as int]);
            }
        }
        all = all && ack;
        i = i + 1;
    }
    assert(consumers@.take(i as int) =~= consumers@);
    all
}

/// What a consumer's answer counts for: one that panicked, and so gave none,
/// has nacked.
pub fn verdict(answer: Option<bool>) -> (ack: bool)
    ensures
        ack == (answer == Some(true)),
{
    match answer {
        Some(ack) => ack,
        None => false,
    }
}

/// A closure that may be called on every envelope is ready.
pub proof fn lemma_closure_ready<F: Fn(&mut Envelope) -> bool + Send + Sync>(f: F)
    requires
        forall|envelope: &mut Envelope| call_requires(f, (envelope,)),
    ensures
        f.ready(),
{
}

} // verus!
