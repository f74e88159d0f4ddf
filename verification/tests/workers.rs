use workpool::message::Message;
use workpool::pool::PoolCore;
use workpool::worker::{worker_after_job, worker_step, JobOutcome, WorkerAction, WorkerState};

#[test]
fn a_work_message_keeps_the_worker_running() {
    let (state, action) = worker_step(Message::Work(42u64));
    assert!(matches!(state, WorkerState::Running));
    assert!(matches!(action, WorkerAction::RunJob(42)));
}

#[test]
fn a_terminate_message_stops_the_worker() {
    let (state, action) = worker_step(Message::<u64>::Terminate);
    assert!(matches!(state, WorkerState::Stopped));
    assert!(matches!(action, WorkerAction::Exit));
}

#[test]
fn a_failed_job_leaves_the_worker_running() {
    let state = worker_after_job(JobOutcome::Failed);
    assert!(matches!(state, WorkerState::Running));
    let state = worker_after_job(JobOutcome::Completed);
    assert!(matches!(state, WorkerState::Running));
}

#[test]
fn a_failure_does_not_block_later_jobs() {
    // One worker takes a job that fails; a job submitted afterwards is
    // still delivered and runs on another worker.
    let mut p = PoolCore::<u64>::new(2).unwrap_or_else(|_| panic!("two workers refused"));
    assert!(p.submit(1));
    let mut states = [WorkerState::Running, WorkerState::Running];
    let msg = p.try_receive().unwrap_or_else(|| panic!("the queue held a job"));
    let (s0, action) = worker_step(msg);
    states[0] = s0;
    assert!(matches!(action, WorkerAction::RunJob(1)));
    // The job raises a failure; the worker survives it.
    states[0] = worker_after_job(JobOutcome::Failed);
    assert!(matches!(states[0], WorkerState::Running));
    // A later submission still goes through and runs elsewhere.
    assert!(p.submit(2));
    let msg = p.try_receive().unwrap_or_else(|| panic!("the queue held a job"));
    let (s1, action) = worker_step(msg);
    states[1] = s1;
    assert!(matches!(action, WorkerAction::RunJob(2)));
    assert!(matches!(states[1], WorkerState::Running));
}

// Runs the pool's own delivery discipline sequentially: each round, every
// worker still running takes at most one message and acts on it.
fn drive_to_rest(p: &mut PoolCore<u64>, states: &mut Vec<WorkerState>, invoked: &mut Vec<u64>) {
    let mut in_flight_high = 0;
    loop {
        let mut in_flight = 0;
        let mut progressed = false;
        for w in 0..states.len() {
            if matches!(states[w], WorkerState::Stopped) {
                continue;
            }
            let Some(msg) = p.try_receive() else { break };
            progressed = true;
            let (next, action) = worker_step(msg);
            states[w] = next;
            if let WorkerAction::RunJob(j) = action {
                in_flight += 1;
                invoked.push(j);
                let outcome = if j % 3 == 0 { JobOutcome::Failed } else { JobOutcome::Completed };
                states[w] = worker_after_job(outcome);
            }
        }
        in_flight_high = in_flight_high.max(in_flight);
        if !progressed {
            break;
        }
    }
    assert!(in_flight_high <= states.len());
}

#[test]
fn every_submitted_job_runs_exactly_once() {
    // More jobs than workers: two workers, ten jobs, some of which fail.
    let n = 2;
    let k = 10u64;
    let mut p = PoolCore::<u64>::new(n).unwrap_or_else(|_| panic!("two workers refused"));
    for j in 0..k {
        assert!(p.submit(j));
    }
    p.begin_shutdown();
    let mut states = vec![WorkerState::Running, WorkerState::Running];
    let mut invoked = Vec::new();
    drive_to_rest(&mut p, &mut states, &mut invoked);
    let expected: Vec<u64> = (0..k).collect();
    assert_eq!(invoked, expected);
    assert_eq!(p.queue_len(), 0);
    assert!(states.iter().all(|s| matches!(s, WorkerState::Stopped)));
}

#[test]
fn immediate_shutdown_stops_every_worker() {
    // No job submitted at all: shutdown alone stops all workers.
    for n in 1..6 {
        let mut p = PoolCore::<u64>::new(n).unwrap_or_else(|_| panic!("workers refused"));
        p.begin_shutdown();
        let mut states = vec![WorkerState::Running; n];
        let mut invoked = Vec::new();
        drive_to_rest(&mut p, &mut states, &mut invoked);
        assert!(invoked.is_empty());
        assert_eq!(p.queue_len(), 0);
        assert!(states.iter().all(|s| matches!(s, WorkerState::Stopped)));
    }
}
