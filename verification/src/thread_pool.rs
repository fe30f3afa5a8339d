//! The job queue of a fixed-capacity worker pool, and its two-phase
//! lifecycle.
//!
//! A pool is built, then started, and only a started pool takes jobs: the
//! phase is part of the pool's type. The pool holds the jobs in the order in
//! which they were submitted and hands each one out once, to whichever
//! worker asks next. Running the worker threads is left to the caller, who
//! starts as many of them as the pool's capacity says.

use std::collections::VecDeque;
use std::marker::PhantomData;
use vstd::prelude::*;

verus! {

/// The phase of a pool that has no workers yet.
#[derive(Clone, Copy)]
pub struct NotStarted;

/// The phase of a pool whose workers run.
#[derive(Clone, Copy)]
pub struct Started;

/// The number of workers of a pool that is built without saying how many.
pub const DEFAULT_CAPACITY: usize = 8;

/// A worker pool in the phase `State`, with jobs of type `T`.
pub struct ThreadPool<T, State> where T: FnOnce() + Send + 'static {
    capacity: usize,
    jobs: VecDeque<T>,
    terminated: bool,
    _phantom: PhantomData<State>,
}

/// Builds pools of the default capacity.
pub struct ThreadPoolBuilder {}

/// What happens to a started pool: a job is submitted, or a worker asks for
/// the next job.
pub enum PoolEvent<T> {
    Run(T),
    Take,
}

/// The queue after an event.
pub open spec fn queue_after<T>(queue: Seq<T>, event: PoolEvent<T>) -> Seq<T> {
    match event {
        PoolEvent::Run(job) => queue.push(job),
        PoolEvent::Take => if queue.len() > 0 {
            queue.drop_first()
        } else {
            queue
        },
    }
}

/// The job that an event hands to a worker, if any.
pub open spec fn handed_out<T>(queue: Seq<T>, event: PoolEvent<T>) -> Option<T> {
    match event {
        PoolEvent::Run(_) => None,
        PoolEvent::Take => if queue.len() > 0 {
            Some(queue[0])
        } else {
            None
        },
    }
}

/// The queue of a pool that started empty, after a history of events.
pub open spec fn queue_of<T>(events: Seq<PoolEvent<T>>) -> Seq<T>
    decreases events.len(),
{
    if events.len() == 0 {
        Seq::empty()
    } else {
        queue_after(queue_of(events.drop_last()), events.last())
    }
}

/// The jobs handed to workers in a history of events, in the order in which
/// they were handed out.
pub open spec fn executed<T>(events: Seq<PoolEvent<T>>) -> Seq<T>
    decreases events.len(),
{
    if events.len() == 0 {
        Seq::empty()
    } else {
        match handed_out(queue_of(events.drop_last()), events.last()) {
            Some(job) => executed(events.drop_last()).push(job),
            None => executed(events.drop_last()),
        }
    }
}

/// The jobs submitted in a history of events, in the order of submission.
pub open spec fn submitted<T>(events: Seq<PoolEvent<T>>) -> Seq<T>
    decreases events.len(),
{
    if events.len() == 0 {
        Seq::empty()
    } else {
        match events.last() {
            PoolEvent::Run(job) => submitted(events.drop_last()).push(job),
            PoolEvent::Take => submitted(events.drop_last()),
        }
    }
}

/// At every moment, the jobs handed out followed by the jobs still queued
/// are exactly the jobs submitted, in the order of submission: no job is
/// lost, none is handed out twice, and none is handed out that was not
/// submitted. The number of workers plays no part in it.
pub proof fn lemma_every_job_once<T>(events: Seq<PoolEvent<T>>)
    ensures
        executed(events) + queue_of(events) == submitted(events),
    decreases events.len(),
{
    if events.len() > 0 {
        let before = events.drop_last();
        lemma_every_job_once(before);
        let queue = queue_of(before);
        match events.last() {
            PoolEvent::Run(job) => {
                assert(executed(before) + queue.push(job) =~= (executed(before) + queue).push(
                    job,
                ));
            },
            PoolEvent::Take => {
                if queue.len() > 0 {
                    assert(executed(before).push(queue[0]) + queue.drop_first() =~= executed(before)
                        + queue);
                }
            },
        }
    } else {
        assert(executed(events) + queue_of(events) =~= submitted(events));
    }
}

/// Once the queue is empty, every submitted job has been handed out, each
/// exactly once and in the order of submission.
pub proof fn lemma_drained_pool_executed_all<T>(events: Seq<PoolEvent<T>>)
    requires
        queue_of(events).len() == 0,
    ensures
        executed(events) == submitted(events),
{
    lemma_every_job_once(events);
    assert(executed(events) + queue_of(events) =~= executed(events));
}

impl<T, State> ThreadPool<T, State> where T: FnOnce() + Send + 'static {
    /// The number of workers that the pool is meant to have.
    pub closed spec fn capacity_spec(&self) -> usize {
        self.capacity
    }

    /// The jobs that wait for a worker, the next one first.
    pub closed spec fn queue(&self) -> Seq<T> {
        self.jobs@
    }

    /// Whether termination has been signalled.
    pub closed spec fn is_terminated(&self) -> bool {
        self.terminated
    }

    /// A pool of the given capacity with no job queued.
    pub fn new(capacity: usize) -> (r: ThreadPool<T, State>)
        ensures
            r.capacity_spec() == capacity,
            r.queue() == Seq::<T>::empty(),
            !r.is_terminated(),
    {
        ThreadPool { capacity, jobs: VecDeque::new(), terminated: false, _phantom: PhantomData }
    }

    /// The number of workers that the pool is meant to have.
    pub fn capacity(&self) -> (r: usize)
        ensures
            r == self.capacity_spec(),
    {
        self.capacity
    }

    /// The number of jobs that wait for a worker.
    pub fn pending(&self) -> (r: usize)
        ensures
            r == self.queue().len(),
    {
        self.jobs.len()
    }

    /// Signals termination. The signal stays; jobs already queued stay too.
    pub fn signal_termination(&mut self)
        ensures
            final(self).is_terminated(),
            final(self).queue() == old(self).queue(),
            final(self).capacity_spec() == old(self).capacity_spec(),
    {
        self.terminated = true;
    }

    /// Tells whether termination has been signalled; the supervisor leaves
    /// its wait when it has.
    pub fn termination_signalled(&self) -> (r: bool)
        ensures
            r == self.is_terminated(),
    {
        self.terminated
    }
}

impl ThreadPoolBuilder {
    /// A pool of the default capacity, not started.
    pub fn build<T>(&self) -> (r: ThreadPool<T, NotStarted>) where T: FnOnce() + Send + 'static
        ensures
            r.capacity_spec() == DEFAULT_CAPACITY,
            r.queue() == Seq::<T>::empty(),
            !r.is_terminated(),
    {
        ThreadPool::<T, NotStarted>::new(DEFAULT_CAPACITY)
    }
}

impl<T> ThreadPool<T, NotStarted> where T: FnOnce() + Send + 'static {
    /// Starts the pool. The started pool has the same capacity and the same
    /// queue; the pool that was not started is used up, so a pool starts once.
    pub fn start(self) -> (r: ThreadPool<T, Started>)
        ensures
            r.capacity_spec() == self.capacity_spec(),
            r.queue() == self.queue(),
            r.is_terminated() == self.is_terminated(),
    {
        ThreadPool {
            capacity: self.capacity,
            jobs: self.jobs,
            terminated: self.terminated,
            _phantom: PhantomData,
        }
    }
}

impl<T> ThreadPool<T, Started> where T: FnOnce() + Send + 'static {
    /// Submits a job: it goes to the end of the queue. Nothing is executed
    /// here.
    pub fn run(&mut self, f: T)
        ensures
            final(self).queue() == queue_after(old(self).queue(), PoolEvent::Run(f)),
            final(self).capacity_spec() == old(self).capacity_spec(),
            final(self).is_terminated() == old(self).is_terminated(),
    {
        self.jobs.push_back(f);
    }

    /// Hands the next job to a worker, or `None` where no job waits. A job
    /// that was handed out is no longer in the queue.
    pub fn take(&mut self) -> (r: Option<T>)
        ensures
            r == handed_out(old(self).queue(), PoolEvent::<T>::Take),
            final(self).queue() == queue_after(old(self).queue(), PoolEvent::<T>::Take),
            final(self).capacity_spec() == old(self).capacity_spec(),
            final(self).is_terminated() == old(self).is_terminated(),
    {
        let job = self.jobs.pop_front();
        proof {
            if old(self).queue().len() > 0 {
                assert(self.queue() =~= old(self).queue().drop_first());
            }
        }
        job
    }
}

} // verus!
