//! The fixed-size worker pool shared by every stage of the bus: the jobs that
//! wait for a worker, and how workers are stopped. The threads themselves are
//! the runtime's.

use crate::config::at_least_one;
use std::collections::VecDeque;
use vstd::prelude::*;

verus! {

/// What a worker finds at the head of the job queue.
pub enum Job<J> {
    /// Work to do.
    Run(J),
    /// The worker that takes this ends.
    Stop,
}

pub struct Pool<J> {
    jobs: VecDeque<Job<J>>,
    stopped: bool,
    workers: usize,
    size: usize,
}

#[verifier::ext_equal]
pub struct PoolView<J> {
    /// The jobs that no worker has taken yet, the oldest first.
    pub jobs: Seq<Job<J>>,
    /// No work is accepted any more.
    pub stopped: bool,
    /// Workers that have not been told to stop.
    pub workers: usize,
    /// Workers the pool was made with.
    pub size: usize,
}

impl<J> PoolView<J> {
    pub open spec fn with_job(self, job: J) -> PoolView<J> {
        PoolView { jobs: self.jobs.push(Job::Run(job)), ..self }
    }

    /// One stop for each worker goes behind the jobs already queued.
    pub open spec fn joined(self) -> PoolView<J> {
        PoolView {
            jobs: self.jobs + Seq::new(self.workers as nat, |i: int| Job::Stop),
            stopped: true,
            workers: 0,
            size: self.size,
        }
    }
}

/// What may happen to a pool: a call of one of its functions.
pub enum PoolStep<J> {
    Execute(J),
    Take,
    Join,
}

impl<J> PoolView<J> {
    /// The pool after the step.
    pub open spec fn after(self, step: PoolStep<J>) -> PoolView<J> {
        match step {
            PoolStep::Execute(job) => if self.stopped {
                self
            } else {
                self.with_job(job)
            },
            PoolStep::Take => if self.jobs.len() > 0 {
                PoolView { jobs: self.jobs.skip(1), ..self }
            } else {
                self
            },
            PoolStep::Join => self.joined(),
        }
    }

    /// What the step queues.
    pub open spec fn queuing(self, step: PoolStep<J>) -> Seq<Job<J>> {
        match step {
            PoolStep::Execute(job) => if self.stopped {
                Seq::empty()
            } else {
                seq![Job::Run(job)]
            },
            PoolStep::Take => Seq::empty(),
            PoolStep::Join => Seq::new(self.workers as nat, |i: int| Job::Stop),
        }
    }

    /// What the step hands to a worker.
    pub open spec fn handing(self, step: PoolStep<J>) -> Seq<Job<J>> {
        if step is Take && self.jobs.len() > 0 {
            seq![self.jobs[0]]
        } else {
            Seq::empty()
        }
    }

    /// The pool after a run of steps.
    pub open spec fn ran(self, steps: Seq<PoolStep<J>>) -> PoolView<J>
        decreases steps.len(),
    {
        if steps.len() == 0 {
            self
        } else {
            self.ran(steps.drop_last()).after(steps.last())
        }
    }

    /// All that the run queues, in order.
    pub open spec fn queued(self, steps: Seq<PoolStep<J>>) -> Seq<Job<J>>
        decreases steps.len(),
    {
        if steps.len() == 0 {
            Seq::empty()
        } else {
            self.queued(steps.drop_last()) + self.ran(steps.drop_last()).queuing(steps.last())
        }
    }

    /// All that the run hands to workers, in order.
    pub open spec fn handed(self, steps: Seq<PoolStep<J>>) -> Seq<Job<J>>
        decreases steps.len(),
    {
        if steps.len() == 0 {
            Seq::empty()
        } else {
            self.handed(steps.drop_last()) + self.ran(steps.drop_last()).handing(steps.last())
        }
    }
}

/// How many of `jobs` are orders to stop.
pub open spec fn stops<J>(jobs: Seq<Job<J>>) -> nat
    decreases jobs.len(),
{
    if jobs.len() == 0 {
        0
    } else {
        stops(jobs.drop_last()) + if jobs.last() is Stop {
            1nat
        } else {
            0nat
        }
    }
}

impl<J> View for Pool<J> {
    type V = PoolView<J>;

    closed spec fn view(&self) -> PoolView<J> {
        PoolView {
            jobs: self.jobs@,
            stopped: self.stopped,
            workers: self.workers,
            size: self.size,
        }
    }
}

impl<J> Pool<J> {
    /// A pool of `size` workers, and of one where `size` is 0.
    pub fn new(size: usize) -> (res: Pool<J>)
        ensures
            res@ == (PoolView {
                jobs: Seq::<Job<J>>::empty(),
                stopped: false,
                workers: at_least_one(size as int) as usize,
                size: at_least_one(size as int) as usize,
            }),
    {
        let size = size.max(1);
        Pool { jobs: VecDeque::new(), stopped: false, workers: size, size }
    }

    pub fn size(&self) -> (res: usize)
        ensures
            res == self@.size,
    {
        self.size
    }

    /// Submit work. Returns `false` if the pool has been shut down.
    pub fn execute(&mut self, job: J) -> (res: bool)
        ensures
            res == !old(self)@.stopped,
            final(self)@ == if res {
                old(self)@.with_job(job)
            } else {
                old(self)@
            },
    {
        if self.stopped {
            return false;
        }
        self.jobs.push_back(Job::Run(job));
        true
    }

    /// The next job for a worker that is free, if there is one.
    pub fn take(&mut self) -> (res: Option<Job<J>>)
        ensures
            match res {
                Some(job) => {
                    &&& old(self)@.jobs.len() > 0
                    &&& job == old(self)@.jobs[0]
                    &&& final(self)@ == (PoolView { jobs: old(self)@.jobs.skip(1), ..old(self)@ })
                },
                None => old(self)@.jobs.len() == 0 && final(self)@ == old(self)@,
            },
    {
        let job = self.jobs.pop_front();
        assert(job is Some ==> self.jobs@ =~= old(self)@.jobs.skip(1));
        job
    }

    /// Stop accepting work and tell every worker to end once the jobs queued
    /// so far are taken. Returns how many workers are to be joined.
    pub fn join(&mut self) -> (res: usize)
        ensures
            res == old(self)@.workers,
            final(self)@ == old(self)@.joined(),
    {
        self.stopped = true;
        let count: usize = self.workers;
        self.workers = 0;
        let mut told: usize = 0;
        while told < count
            invariant
                told <= count,
                count == old(self)@.workers,
                self.stopped,
                self.workers == 0,
                self.size == old(self)@.size,
                self.jobs@ == old(self)@.jobs + Seq::new(told as nat, |i: int| Job::<J>::Stop),
            decreases count - told,
        {
            self.jobs.push_back(Job::Stop);
            told = told + 1;
            assert(self.jobs@ =~= old(self)@.jobs + Seq::new(told as nat, |i: int| Job::<J>::Stop));
        }
        assert(self@ =~= old(self)@.joined());
        count
    }
}

} // verus!
