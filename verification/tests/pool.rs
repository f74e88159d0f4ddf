use workpool::message::Message;
use workpool::pool::{PoolCore, PoolError};

#[test]
fn construction_with_zero_workers_fails() {
    let r = PoolCore::<u64>::new(0);
    assert!(matches!(r, Err(PoolError::ZeroWorkers)));
}

#[test]
fn construction_starts_empty() {
    let p = PoolCore::<u64>::new(5).unwrap_or_else(|_| panic!("five workers refused"));
    assert_eq!(p.worker_count(), 5);
    assert_eq!(p.queue_len(), 0);
    assert!(!p.shutdown_begun());
}

#[test]
fn submissions_are_delivered_in_order() {
    let mut p = PoolCore::<u64>::new(3).unwrap_or_else(|_| panic!("three workers refused"));
    assert!(p.submit(10));
    assert!(p.submit(20));
    assert!(p.submit(30));
    assert_eq!(p.queue_len(), 3);
    assert!(matches!(p.try_receive(), Some(Message::Work(10))));
    assert!(matches!(p.try_receive(), Some(Message::Work(20))));
    assert!(matches!(p.try_receive(), Some(Message::Work(30))));
    assert!(p.try_receive().is_none());
}

#[test]
fn shutdown_sends_one_terminate_per_worker() {
    let n = 4;
    let mut p = PoolCore::<u64>::new(n).unwrap_or_else(|_| panic!("four workers refused"));
    p.begin_shutdown();
    assert!(p.shutdown_begun());
    assert_eq!(p.queue_len(), n);
    let mut terminates = 0;
    while let Some(m) = p.try_receive() {
        match m {
            Message::Work(_) => panic!("no job was submitted"),
            Message::Terminate => terminates += 1,
        }
    }
    assert_eq!(terminates, n);
}

#[test]
fn shutdown_is_idempotent() {
    let mut p = PoolCore::<u64>::new(3).unwrap_or_else(|_| panic!("three workers refused"));
    p.begin_shutdown();
    assert_eq!(p.queue_len(), 3);
    p.begin_shutdown();
    assert_eq!(p.queue_len(), 3);
}

#[test]
fn submissions_after_shutdown_are_rejected() {
    let mut p = PoolCore::<u64>::new(2).unwrap_or_else(|_| panic!("two workers refused"));
    assert!(p.submit(1));
    p.begin_shutdown();
    assert!(!p.submit(2));
    assert_eq!(p.queue_len(), 3);
    assert!(matches!(p.try_receive(), Some(Message::Work(1))));
    assert!(matches!(p.try_receive(), Some(Message::Terminate)));
    assert!(matches!(p.try_receive(), Some(Message::Terminate)));
    assert!(p.try_receive().is_none());
}

#[test]
fn jobs_drain_before_terminates() {
    let mut p = PoolCore::<u64>::new(2).unwrap_or_else(|_| panic!("two workers refused"));
    for j in 0..6 {
        assert!(p.submit(j));
    }
    p.begin_shutdown();
    let mut seen_terminate = false;
    let mut jobs = Vec::new();
    while let Some(m) = p.try_receive() {
        match m {
            Message::Work(j) => {
                assert!(!seen_terminate, "a job stood behind a terminate");
                jobs.push(j);
            }
            Message::Terminate => seen_terminate = true,
        }
    }
    assert_eq!(jobs, vec![0, 1, 2, 3, 4, 5]);
}
