use vstd::prelude::*;
use crate::message::{terminate_seq, Message};

verus! {

/// Why a pool could not be built.
pub enum PoolError {
    ZeroWorkers,
}

/// The shared core of the pool: the dispatch queue together with the
/// bookkeeping that submission and shutdown need.
///
/// The queue is strictly first-in first-out: submissions append at the back
/// and workers take from the front, so messages are delivered in enqueue
/// order, each to exactly one taker. Shutdown appends one `Terminate` per
/// worker, exactly once, and from then on rejects further submissions, so
/// every job accepted before shutdown stands ahead of every `Terminate`:
/// queued jobs drain before the workers stop.
pub struct PoolCore<J> {
    queue: Vec<Message<J>>,
    workers: usize,
    stopping: bool,
}

impl<J> PoolCore<J> {
    /// The queued messages, front first.
    pub closed spec fn queue_view(self) -> Seq<Message<J>> {
        self.queue@
    }

    /// How many workers the pool was built for.
    pub closed spec fn worker_count_spec(self) -> nat {
        self.workers as nat
    }

    /// Whether shutdown has begun.
    pub closed spec fn is_stopping(self) -> bool {
        self.stopping
    }

    /// The core's invariant: before shutdown the queue holds jobs only;
    /// after shutdown has begun, the termination messages form a suffix,
    /// so no job ever stands behind a `Terminate`.
    pub open spec fn wf(self) -> bool {
        if self.is_stopping() {
            forall|i: int, k: int|
                #![trigger self.queue_view()[i], self.queue_view()[k]]
                0 <= i <= k < self.queue_view().len() && !self.queue_view()[i].is_work()
                    ==> !self.queue_view()[k].is_work()
        } else {
            forall|i: int|
                0 <= i < self.queue_view().len() ==> (#[trigger] self.queue_view()[i]).is_work()
        }
    }

    /// Builds the core for `workers` worker threads.
    ///
    /// Fails exactly when `workers` is zero; otherwise the queue starts
    /// empty and shutdown has not begun.
    pub fn new(workers: usize) -> (r: Result<PoolCore<J>, PoolError>)
        ensures
            workers == 0 ==> r is Err,
            workers != 0 ==> r is Ok,
            r matches Err(e) ==> e == PoolError::ZeroWorkers,
            r matches Ok(p) ==> p.worker_count_spec() == workers
                && p.queue_view() == Seq::<Message<J>>::empty()
                && !p.is_stopping()
                && p.wf(),
    {
        if workers == 0 {
            Err(PoolError::ZeroWorkers)
        } else {
            let core = PoolCore { queue: Vec::new(), workers, stopping: false };
            assert(core.queue_view() == Seq::<Message<J>>::empty());
            Ok(core)
        }
    }

    /// Enqueues one job, unless shutdown has begun.
    ///
    /// Returns whether the job was accepted: exactly the submissions made
    /// before shutdown begins are accepted, and an accepted job goes to the
    /// back of the queue. A rejected job leaves the core unchanged.
    pub fn submit(&mut self, job: J) -> (accepted: bool)
        requires
            old(self).wf(),
        ensures
            accepted == !old(self).is_stopping(),
            accepted ==> final(self).queue_view()
                == old(self).queue_view().push(Message::Work(job)),
            !accepted ==> final(self).queue_view() == old(self).queue_view(),
            final(self).worker_count_spec() == old(self).worker_count_spec(),
            final(self).is_stopping() == old(self).is_stopping(),
            final(self).wf(),
    {
        if self.stopping {
            false
        } else {
            self.queue.push(Message::Work(job));
            assert forall|i: int| 0 <= i < self.queue_view().len()
                implies (#[trigger] self.queue_view()[i]).is_work() by {
                if i < old(self).queue_view().len() {
                    assert(self.queue_view()[i] == old(self).queue_view()[i]);
                    assert(old(self).queue_view()[i].is_work());
                }
            }
            true
        }
    }

    /// Begins shutdown: appends exactly one `Terminate` message per worker,
    /// after everything already queued, and marks the core as stopping.
    ///
    /// Calling it again later changes nothing: the termination messages are
    /// sent exactly once, however often shutdown is requested.
    pub fn begin_shutdown(&mut self)
        requires
            old(self).wf(),
        ensures
            final(self).is_stopping(),
            !old(self).is_stopping() ==> final(self).queue_view()
                == old(self).queue_view() + terminate_seq::<J>(old(self).worker_count_spec()),
            old(self).is_stopping() ==> final(self).queue_view() == old(self).queue_view(),
            final(self).worker_count_spec() == old(self).worker_count_spec(),
            final(self).wf(),
    {
        if !self.stopping {
            let ghost before = self.queue@;
            let n = self.workers;
            let mut sent: usize = 0;
            while sent < n
                invariant
                    sent <= n,
                    self.queue@ == before + terminate_seq::<J>(sent as nat),
                    self.workers == n,
                    self.stopping == false,
                decreases n - sent,
            {
                self.queue.push(Message::Terminate);
                sent = sent + 1;
                assert(self.queue@ == before + terminate_seq::<J>(sent as nat));
            }
            self.stopping = true;
            assert forall|i: int, k: int|
                0 <= i <= k < self.queue_view().len() && !self.queue_view()[i].is_work()
                    implies !self.queue_view()[k].is_work() by {
                if i < before.len() {
                    assert(self.queue_view()[i] == before[i]);
                    assert(old(self).queue_view()[i].is_work());
                } else {
                    assert(self.queue_view()[k] == Message::<J>::Terminate);
                }
            }
        }
    }

    /// Takes the message at the front of the queue, if there is one.
    ///
    /// Exactly the front message is handed out, and the rest keep their
    /// order: together with callers taking one message at a time this is the
    /// whole delivery discipline, first-in first-out with no duplication.
    pub fn try_receive(&mut self) -> (r: Option<Message<J>>)
        requires
            old(self).wf(),
        ensures
            old(self).queue_view().len() == 0 ==> r is None
                && final(self).queue_view() == old(self).queue_view(),
            old(self).queue_view().len() > 0 ==> (match r {
                Some(m) => m == old(self).queue_view()[0]
                    && final(self).queue_view() == old(self).queue_view().drop_first(),
                None => false,
            }),
            final(self).worker_count_spec() == old(self).worker_count_spec(),
            final(self).is_stopping() == old(self).is_stopping(),
            final(self).wf(),
    {
        if self.queue.len() == 0 {
            None
        } else {
            let m = self.queue.remove(0);
            assert(self.queue@ == old(self).queue_view().drop_first());
            Some(m)
        }
    }

    /// How many messages are queued.
    pub fn queue_len(&self) -> (n: usize)
        ensures
            n == self.queue_view().len(),
    {
        self.queue.len()
    }

    /// How many workers the pool was built for.
    pub fn worker_count(&self) -> (n: usize)
        ensures
            n == self.worker_count_spec(),
    {
        self.workers
    }

    /// Whether shutdown has begun.
    pub fn shutdown_begun(&self) -> (b: bool)
        ensures
            b == self.is_stopping(),
    {
        self.stopping
    }
}

} // verus!
