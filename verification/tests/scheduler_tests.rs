use labs::scheduler::{Scheduler, Status, WorkerMessage};

#[test]
fn new_scheduler_has_every_worker_ready() {
    let s: Scheduler<&str> = Scheduler::new(3);
    for id in 0..3 {
        assert_eq!(s.status_of(id), Some(Status::READY));
    }
    assert_eq!(s.status_of(3), None);
}

#[test]
fn new_job_goes_to_worker_zero_first() {
    let mut s: Scheduler<&str> = Scheduler::new(2);
    assert_eq!(s.on_pool_message(WorkerMessage::NewJob("a")), Some((0, "a")));
    assert_eq!(s.status_of(0), Some(Status::WAITING));
    assert_eq!(s.on_pool_message(WorkerMessage::NewJob("b")), Some((1, "b")));
    // No worker left: the job is queued.
    assert_eq!(s.on_pool_message(WorkerMessage::NewJob("c")), None);
    assert_eq!(s.on_pool_message(WorkerMessage::JobAccepted(0)), None);
}

#[test]
fn worker_lifecycle_and_queued_jobs() {
    let mut s: Scheduler<u32> = Scheduler::new(1);
    assert_eq!(s.on_pool_message(WorkerMessage::NewJob(10)), Some((0, 10)));
    assert_eq!(s.on_pool_message(WorkerMessage::NewJob(11)), None);
    assert_eq!(s.on_pool_message(WorkerMessage::NewJob(12)), None);
    assert!(s.on_worker_message(Some(WorkerMessage::JobAccepted(0))).is_empty());
    assert_eq!(s.status_of(0), Some(Status::RUNNING));
    // The worker is done: the oldest queued job goes to it.
    assert_eq!(s.on_worker_message(Some(WorkerMessage::JobCompleted(0))), vec![(0, 11)]);
    assert_eq!(s.status_of(0), Some(Status::WAITING));
    assert!(s.on_worker_message(Some(WorkerMessage::JobAccepted(0))).is_empty());
    assert_eq!(s.on_worker_message(Some(WorkerMessage::JobCompleted(0))), vec![(0, 12)]);
    assert!(s.on_worker_message(None).is_empty());
}

#[test]
fn several_ready_workers_share_the_queue() {
    let mut s: Scheduler<u32> = Scheduler::new(2);
    assert_eq!(s.on_pool_message(WorkerMessage::NewJob(1)), Some((0, 1)));
    assert_eq!(s.on_pool_message(WorkerMessage::NewJob(2)), Some((1, 2)));
    assert_eq!(s.on_pool_message(WorkerMessage::NewJob(3)), None);
    assert_eq!(s.on_pool_message(WorkerMessage::NewJob(4)), None);
    s.on_worker_message(Some(WorkerMessage::JobAccepted(1)));
    s.on_worker_message(Some(WorkerMessage::JobAccepted(0)));
    assert_eq!(s.on_worker_message(Some(WorkerMessage::JobCompleted(1))), vec![(1, 3)]);
    assert_eq!(s.on_worker_message(Some(WorkerMessage::JobCompleted(0))), vec![(0, 4)]);
    assert_eq!(s.status_of(0), Some(Status::WAITING));
    assert_eq!(s.status_of(1), Some(Status::WAITING));
}

#[test]
fn pool_messages_other_than_jobs_change_nothing() {
    let mut s: Scheduler<u32> = Scheduler::new(1);
    assert_eq!(s.on_pool_message(WorkerMessage::JobCompleted(0)), None);
    assert_eq!(s.status_of(0), Some(Status::READY));
}

#[test]
fn every_job_goes_out_once_in_arrival_order() {
    let mut s: Scheduler<u32> = Scheduler::new(2);
    let mut sent: Vec<(usize, u32)> = Vec::new();
    for job in 1..=5 {
        if let Some(p) = s.on_pool_message(WorkerMessage::NewJob(job)) {
            sent.push(p);
        }
    }
    while sent.len() < 5 {
        let busy: Vec<usize> = (0..2).filter(|w| s.status_of(*w) == Some(Status::WAITING)).collect();
        for w in busy {
            sent.extend(s.on_worker_message(Some(WorkerMessage::JobAccepted(w))));
            sent.extend(s.on_worker_message(Some(WorkerMessage::JobCompleted(w))));
        }
    }
    let jobs: Vec<u32> = sent.iter().map(|p| p.1).collect();
    assert_eq!(jobs, vec![1, 2, 3, 4, 5]);
}
