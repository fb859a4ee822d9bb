//! Shutdown: waiting for the queue to drain, then one sentinel per worker.

use vstd::prelude::*;

verus! {

/// How long to wait before looking at the work queue again.
pub const DRAIN_POLL_MILLIS: u64 = 2;

/// What the coordinator is to do next once the dispatcher has returned.
#[derive(Clone, Copy, Debug, PartialEq, Eq, Structural)]
pub enum Order {
    /// Sleep this many milliseconds, then ask again.
    Wait(u64),
    /// Enqueue one sentinel, then ask again.
    Sentinel,
    /// Join the workers and take in what is left of their reports.
    Join,
}

/// The bookkeeping of a shutdown.
#[derive(Clone, Copy, Debug, PartialEq, Eq, Structural)]
pub struct Coordinator {
    /// The number of workers started.
    pub workers: usize,
    /// The number of sentinels enqueued so far.
    pub sentinels: usize,
}

/// Calls `num_cpus::get`, the number of logical processors available to this
/// process, which that crate documents to be at least one.
#[verifier::external_body]
fn hardware_threads() -> (n: usize)
    ensures
        n >= 1,
{
    num_cpus::get()
}

impl Coordinator {
    /// There is a worker, and no more sentinels than workers.
    pub open spec fn wf(&self) -> bool {
        1 <= self.workers && self.sentinels <= self.workers
    }

    /// What `shut_down` orders in this state.
    pub open spec fn order(&self, queue_empty: bool) -> Order {
        if self.sentinels == 0 && !queue_empty {
            Order::Wait(DRAIN_POLL_MILLIS)
        } else if self.sentinels < self.workers {
            Order::Sentinel
        } else {
            Order::Join
        }
    }

    /// A coordinator for as many workers as the machine has hardware threads.
    pub fn new() -> (c: Coordinator)
        ensures
            c.wf(),
            c.sentinels == 0,
    {
        Coordinator::with_workers(hardware_threads())
    }

    /// A coordinator for `workers` workers.
    pub fn with_workers(workers: usize) -> (c: Coordinator)
        requires
            workers >= 1,
        ensures
            c.wf(),
            c.workers == workers,
            c.sentinels == 0,
    {
        Coordinator { workers, sentinels: 0 }
    }

    /// Decides the next step of the shutdown.
    ///
    /// Until the work queue has been seen empty, the order is to wait. From
    /// then on one sentinel is ordered per call, and counted, until every
    /// worker has its own; after that the order is to join.
    pub fn shut_down(&mut self, queue_empty: bool) -> (order: Order)
        requires
            old(self).wf(),
        ensures
            final(self).wf(),
            order == old(self).order(queue_empty),
            final(self).workers == old(self).workers,
            final(self).sentinels == if order == Order::Sentinel {
                old(self).sentinels + 1
            } else {
                old(self).sentinels as int
            },
            order == Order::Join ==> final(self).sentinels == final(self).workers,
    {
        if self.sentinels == 0 && !queue_empty {
            Order::Wait(DRAIN_POLL_MILLIS)
        } else if self.sentinels < self.workers {
            self.sentinels = self.sentinels + 1;
            Order::Sentinel
        } else {
            Order::Join
        }
    }
}

} // verus!
