use vstd::prelude::*;

verus! {

/// What the dispatch queue carries: either a unit of work for one worker,
/// or an order for exactly one worker to stop.
pub enum Message<J> {
    Work(J),
    Terminate,
}

impl<J> Message<J> {
    /// Whether this message carries a job.
    pub open spec fn is_work(self) -> bool {
        matches!(self, Message::Work(_))
    }
}

/// The block of termination messages that a shutdown enqueues: one per worker.
pub open spec fn terminate_seq<J>(n: nat) -> Seq<Message<J>> {
    Seq::new(n, |i: int| Message::Terminate)
}

/// The queue contents produced by submitting `jobs` in order.
pub open spec fn work_seq<J>(jobs: Seq<J>) -> Seq<Message<J>> {
    jobs.map(|i: int, j: J| Message::Work(j))
}

} // verus!
