//! The bounded ring buffer behind a stage, from `crossbeam_queue`.
//!
//! A queue is reached through an exclusive reference here, so that what it
//! holds changes only in the calls below.

use crate::config::MAX_SLOTS;
use crate::envelope::Envelope;
use crossbeam_queue::ArrayQueue;
use vstd::prelude::*;

verus! {

/// `crossbeam_queue::ArrayQueue`, a bounded first-in first-out queue.
#[verifier::external_type_specification]
#[verifier::external_body]
#[verifier::reject_recursive_types(T)]
pub struct ExArrayQueue<T>(ArrayQueue<T>);

/// What a queue holds, the oldest first.
pub uninterp spec fn queued(queue: ArrayQueue<Envelope>) -> Seq<Envelope>;

/// How many envelopes a queue was made for.
pub uninterp spec fn slots(queue: ArrayQueue<Envelope>) -> nat;

/// `ArrayQueue::new`: an empty queue of `cap` slots. It panics on a capacity
/// of zero and on one whose buffer cannot be laid out.
#[verifier::external_body]
pub(crate) fn queue_new(cap: usize) -> (res: ArrayQueue<Envelope>)
    requires
        0 < cap <= MAX_SLOTS,
    ensures
        queued(res) == Seq::<Envelope>::empty(),
        slots(res) == cap,
{
    ArrayQueue::new(cap)
}

/// `ArrayQueue::push`: adds at the back where a slot is free, and hands the
/// envelope back where none is.
#[verifier::external_body]
pub(crate) fn queue_push(queue: &mut ArrayQueue<Envelope>, env: Envelope) -> (res: Result<(), Envelope>)
    ensures
        slots(*final(queue)) == slots(*old(queue)),
        match res {
            Ok(_) => {
                &&& queued(*old(queue)).len() < slots(*old(queue))
                &&& queued(*final(queue)) == queued(*old(queue)).push(env)
            },
            Err(back) => {
                &&& queued(*old(queue)).len() >= slots(*old(queue))
                &&& queued(*final(queue)) == queued(*old(queue))
                &&& back == env
            },
        },
{
    queue.push(env)
}

/// `ArrayQueue::pop`: takes the oldest envelope, if there is one.
#[verifier::external_body]
pub(crate) fn queue_pop(queue: &mut ArrayQueue<Envelope>) -> (res: Option<Envelope>)
    ensures
        slots(*final(queue)) == slots(*old(queue)),
        match res {
            Some(env) => {
                &&& queued(*old(queue)).len() > 0
                &&& env == queued(*old(queue))[0]
                &&& queued(*final(queue)) == queued(*old(queue)).skip(1)
            },
            None => {
                &&& queued(*old(queue)).len() == 0
                &&& queued(*final(queue)) == queued(*old(queue))
            },
        },
{
    queue.pop()
}

/// `ArrayQueue::len`: how many envelopes the queue holds.
#[verifier::external_body]
pub(crate) fn queue_len(queue: &ArrayQueue<Envelope>) -> (res: usize)
    ensures
        res == queued(*queue).len(),
{
    queue.len()
}

} // verus!
