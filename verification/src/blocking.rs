//! The policy of the pool of threads that run blocking jobs: when a job comes,
//! whether an idle worker takes it, a new worker is started for it, it waits
//! in the queue, or it is refused; and when an idle worker retires.

use std::time::Duration;
use vstd::prelude::*;

verus! {

/// Why the pool refused a job.
#[derive(Debug, Clone, Copy, PartialEq, Eq, Structural)]
pub enum ThreadPoolError {
    /// Every worker is busy, no more may start, and the queue is full.
    Overloaded,
}

/// What the pool does with a job it accepts.
#[derive(Debug, Clone, Copy, PartialEq, Eq, Structural)]
pub enum Admission {
    /// Queue the job and wake an idle worker to take it.
    WakeIdle,
    /// Queue the job and start a new worker, which takes it.
    SpawnWorker,
    /// Queue the job for the next worker that is free.
    Enqueue,
}

/// The settings of a pool of worker threads for blocking jobs.
pub struct ThreadPool {
    core_threads: usize,
    max_threads: usize,
    queue_capacity: usize,
    keep_alive: Duration,
}

/// What the pool does with a job, given its idle workers, its running
/// workers and the jobs already queued.
pub open spec fn admission(
    max_threads: usize,
    queue_capacity: usize,
    idle_workers: usize,
    active_workers: usize,
    queued: usize,
) -> Result<Admission, ThreadPoolError> {
    if idle_workers > 0 {
        Ok(Admission::WakeIdle)
    } else if active_workers < max_threads {
        Ok(Admission::SpawnWorker)
    } else if queued < queue_capacity {
        Ok(Admission::Enqueue)
    } else {
        Err(ThreadPoolError::Overloaded)
    }
}

impl ThreadPool {
    /// Workers kept even when idle.
    pub closed spec fn spec_core_threads(self) -> usize {
        self.core_threads
    }

    /// Most workers running at once.
    pub closed spec fn spec_max_threads(self) -> usize {
        self.max_threads
    }

    /// Most jobs waiting in the queue.
    pub closed spec fn spec_queue_capacity(self) -> usize {
        self.queue_capacity
    }

    /// How long a worker above the core count waits idle before it retires.
    pub closed spec fn spec_keep_alive(self) -> Duration {
        self.keep_alive
    }

    /// A pool with these settings; there can be no more core workers than
    /// workers in all.
    pub fn new(core_threads: usize, max_threads: usize, queue_capacity: usize, keep_alive: Duration) -> (r: Self)
        requires
            core_threads <= max_threads,
        ensures
            r.spec_core_threads() == core_threads,
            r.spec_max_threads() == max_threads,
            r.spec_queue_capacity() == queue_capacity,
            r.spec_keep_alive() == keep_alive,
    {
        ThreadPool { core_threads, max_threads, queue_capacity, keep_alive }
    }

    /// What to do with a new job: wake an idle worker if there is one, else
    /// start a worker if fewer than the most are running, else queue the job
    /// if the queue has room, else refuse it as overloaded.
    pub fn decide(&self, idle_workers: usize, active_workers: usize, queued: usize) -> (r: Result<Admission, ThreadPoolError>)
        ensures
            r == admission(self.spec_max_threads(), self.spec_queue_capacity(), idle_workers, active_workers, queued),
    {
        if idle_workers > 0 {
            return Ok(Admission::WakeIdle);
        }
        if active_workers < self.max_threads {
            return Ok(Admission::SpawnWorker);
        }
        if queued < self.queue_capacity {
            Ok(Admission::Enqueue)
        } else {
            Err(ThreadPoolError::Overloaded)
        }
    }

    /// Whether a worker whose wait for a job timed out on an empty queue
    /// retires: only while more than the core workers are running.
    pub fn should_retire(&self, timed_out: bool, queue_empty: bool, active_workers: usize) -> (r: bool)
        ensures
            r == (timed_out && queue_empty && active_workers > self.spec_core_threads()),
    {
        timed_out && queue_empty && active_workers > self.core_threads
    }

    /// Workers kept even when idle.
    pub fn core_threads(&self) -> (r: usize)
        ensures
            r == self.spec_core_threads(),
    {
        self.core_threads
    }

    /// Most workers running at once.
    pub fn max_threads(&self) -> (r: usize)
        ensures
            r == self.spec_max_threads(),
    {
        self.max_threads
    }

    /// Most jobs waiting in the queue.
    pub fn queue_capacity(&self) -> (r: usize)
        ensures
            r == self.spec_queue_capacity(),
    {
        self.queue_capacity
    }

    /// How long a worker above the core count waits idle before it retires.
    pub fn keep_alive(&self) -> (r: Duration)
        ensures
            r == self.spec_keep_alive(),
    {
        self.keep_alive
    }
}

/// The pool never starts a worker beyond its most, never queues a job beyond
/// its capacity, and refuses a job only when no worker is idle, the most are
/// running and the queue is full.
pub proof fn law_admission_bounds(
    max_threads: usize,
    queue_capacity: usize,
    idle_workers: usize,
    active_workers: usize,
    queued: usize,
)
    ensures
        admission(max_threads, queue_capacity, idle_workers, active_workers, queued) == Ok::<Admission, ThreadPoolError>(Admission::SpawnWorker)
            ==> active_workers < max_threads,
        admission(max_threads, queue_capacity, idle_workers, active_workers, queued) == Ok::<Admission, ThreadPoolError>(Admission::Enqueue)
            ==> queued < queue_capacity,
        admission(max_threads, queue_capacity, idle_workers, active_workers, queued) is Err <==> (idle_workers
            == 0 && active_workers >= max_threads && queued >= queue_capacity),
{
}

/// An idle worker is always used first: whenever one is idle, a job wakes
/// it, whatever the number of running workers and the length of the queue; a
/// new worker is started only when none is idle and fewer than the most are
/// running; the job is queued only when none is idle, the most are running
/// and the queue has room.
pub proof fn law_idle_worker_first(pool: ThreadPool, idle_workers: usize, active_workers: usize, queued: usize)
    ensures
        idle_workers > 0 ==> admission(
            pool.spec_max_threads(),
            pool.spec_queue_capacity(),
            idle_workers,
            active_workers,
            queued,
        ) == Ok::<Admission, ThreadPoolError>(Admission::WakeIdle),
        idle_workers == 0 && active_workers < pool.spec_max_threads() ==> admission(
            pool.spec_max_threads(),
            pool.spec_queue_capacity(),
            idle_workers,
            active_workers,
            queued,
        ) == Ok::<Admission, ThreadPoolError>(Admission::SpawnWorker),
        idle_workers == 0 && active_workers >= pool.spec_max_threads() && queued < pool.spec_queue_capacity()
            ==> admission(
            pool.spec_max_threads(),
            pool.spec_queue_capacity(),
            idle_workers,
            active_workers,
            queued,
        ) == Ok::<Admission, ThreadPoolError>(Admission::Enqueue),
{
}

} // verus!
