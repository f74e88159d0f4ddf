use vstd::prelude::*;
use crate::message::Message;

verus! {

/// A worker's control state: in its receive loop, or exited for good.
#[derive(Clone, Copy)]
pub enum WorkerState {
    Running,
    Stopped,
}

/// What a worker must do after taking one message from the queue.
pub enum WorkerAction<J> {
    RunJob(J),
    Exit,
}

/// How one job invocation ended.
pub enum JobOutcome {
    Completed,
    Failed,
}

/// Decides a worker's next state and action from the message it received.
///
/// A `Work` message keeps the worker running and hands it the job; a
/// `Terminate` message stops the worker, and exactly that worker, for good.
pub fn worker_step<J>(msg: Message<J>) -> (r: (WorkerState, WorkerAction<J>))
    ensures
        (match msg {
            Message::Work(j) => r == (WorkerState::Running, WorkerAction::RunJob(j)),
            Message::Terminate => r == (WorkerState::Stopped, WorkerAction::<J>::Exit),
        }),
{
    match msg {
        Message::Work(j) => (WorkerState::Running, WorkerAction::RunJob(j)),
        Message::Terminate => (WorkerState::Stopped, WorkerAction::Exit),
    }
}

/// Decides a worker's state after one job invocation has ended.
///
/// The worker returns to its receive loop whatever the outcome: a failure is
/// contained to the job that raised it and never costs the pool a worker.
pub fn worker_after_job(outcome: JobOutcome) -> (r: WorkerState)
    ensures
        r == WorkerState::Running,
{
    match outcome {
        JobOutcome::Completed => WorkerState::Running,
        JobOutcome::Failed => WorkerState::Running,
    }
}

} // verus!
